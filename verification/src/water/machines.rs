//! Idle water machines: Poisson clocks driven by one xorshift generator.
//!
//! Each machine keeps a deadline per cell, on the owner's monotonic clock in
//! nanoseconds. A cell whose deadline has passed fires and is rearmed after
//! a random wait. Every random number is a 24-bit draw from a xorshift64
//! generator; the owner supplies the law that turns a draw into a wait.

use vstd::prelude::*;

verus! {

/// Columns of the drain field.
pub const DRAIN_COLS: usize = 3;
/// Rows of the drain field.
pub const DRAIN_ROWS: usize = 2;
/// Cells of the drain field.
pub const DRAIN_CELLS: usize = 6;
/// Generator seed of the drain field.
pub const DRAIN_SEED: u64 = 0x83f6_1d05_a04d_e357;
/// Pistons of the loading raft.
pub const RAFT_PISTONS: usize = 4;
/// Generator seed of the loading raft.
pub const RAFT_SEED: u64 = 0x2b99_2751_d6e8_4d31;

/// One xorshift64 step (shifts 7, 9, 8).
pub open spec fn xorshift(x: u64) -> u64 {
    let a = x ^ (x << 7u64);
    let b = a ^ (a >> 9u64);
    b ^ (b << 8u64)
}

/// Generator state after `n` steps from `seed`.
pub open spec fn rng_after(seed: u64, n: nat) -> u64
    decreases n,
{
    if n == 0 {
        seed
    } else {
        xorshift(rng_after(seed, (n - 1) as nat))
    }
}

/// The `i`-th 24-bit draw from `seed`: the top 24 bits of the state after
/// `i + 1` steps.
pub open spec fn draw_at(seed: u64, i: nat) -> u32 {
    (rng_after(seed, i + 1) >> 40u64) as u32
}

/// Advance the generator one step and return its 24-bit draw.
pub fn next_draw(rng: &mut u64) -> (d: u32)
    ensures
        *final(rng) == xorshift(*old(rng)),
        d == (*final(rng) >> 40u64) as u32,
        d < 0x100_0000,
{
    let a = *rng ^ (*rng << 7u64);
    let b = a ^ (a >> 9u64);
    *rng = b ^ (b << 8u64);
    let top = *rng >> 40u64;
    proof {
        let r = *rng;
        assert(r >> 40u64 < 0x100_0000u64) by (bit_vector);
    }
    top as u32
}

/// A xorshift step is a bijection fixing zero: a nonzero state never
/// collapses to the degenerate all-zero state.
pub proof fn lemma_xorshift_never_zero(x: u64)
    requires
        x != 0,
    ensures
        xorshift(x) != 0,
{
    assert(x != 0 ==> (x ^ (x << 7u64)) != 0) by (bit_vector);
    let a = x ^ (x << 7u64);
    assert(a != 0 ==> (a ^ (a >> 9u64)) != 0) by (bit_vector);
    let b = a ^ (a >> 9u64);
    assert(b != 0 ==> (b ^ (b << 8u64)) != 0) by (bit_vector);
}

/// Neither seed is zero, so neither machine's generator ever stalls.
pub proof fn lemma_seeded_generators_never_stall(n: nat)
    ensures
        rng_after(DRAIN_SEED, n) != 0,
        rng_after(RAFT_SEED, n) != 0,
    decreases n,
{
    if n > 0 {
        lemma_seeded_generators_never_stall((n - 1) as nat);
        lemma_xorshift_never_zero(rng_after(DRAIN_SEED, (n - 1) as nat));
        lemma_xorshift_never_zero(rng_after(RAFT_SEED, (n - 1) as nat));
    }
}

/// Number of cells among the first `n` whose deadline has passed at `now`.
pub open spec fn due_before(cells: Seq<u64>, now: u64, n: int) -> nat
    decreases n,
{
    if n <= 0 {
        0
    } else if now < cells[n - 1] {
        due_before(cells, now, n - 1)
    } else {
        due_before(cells, now, n - 1) + 1
    }
}

/// The longest wait an owner's law may give, in nanoseconds (about eighteen
/// minutes).
pub const MAX_WAIT_NANOS: u64 = 0x100_0000_0000;

/// The owner's law turns draw `d` into a wait of `w` nanoseconds.
pub open spec fn waits<F: Fn(u32) -> u64>(wait: &F, d: u32, w: int) -> bool {
    0 <= w <= u64::MAX && call_ensures(*wait, (d,), w as u64)
}

/// The owner's law accepts every draw and never waits longer than
/// [`MAX_WAIT_NANOS`].
pub open spec fn lawful<F: Fn(u32) -> u64>(wait: &F) -> bool {
    &&& forall|d: u32| #[trigger] wait.requires((d,))
    &&& forall|d: u32, w: u64| #[trigger] call_ensures(*wait, (d,), w) ==> w <= MAX_WAIT_NANOS
}

/// Clock `i` is armed at `now` plus the wait the owner's law gives the
/// `i`-th draw from `seed`.
pub open spec fn armed_well<F: Fn(u32) -> u64>(cells: Seq<u64>, seed: u64, now: u64, wait: &F, i: int) -> bool {
    waits(wait, draw_at(seed, i as nat), cells[i] - now) && cells[i] >= now
}

/// Under an owner's law whose waits are all positive, a clock armed at `now`
/// lies strictly after `now`: a rearmed drain cell never fires in the pass
/// that rearmed it.
pub proof fn lemma_positive_waits_arm_later<F: Fn(u32) -> u64>(cells: Seq<u64>, seed: u64, now: u64, wait: &F, i: int)
    requires
        0 <= i < cells.len(),
        armed_well(cells, seed, now, wait, i),
        forall|d: u32, w: u64| #[trigger] call_ensures(*wait, (d,), w) ==> w > 0,
    ensures
        cells[i] > now,
{
    assert(call_ensures(*wait, (draw_at(seed, i as nat),), (cells[i] - now) as u64));
}

/// A cell that fired: its index and the draw that sets its strength.
#[derive(Clone, Copy, Debug, PartialEq, Eq)]
pub struct Firing {
    pub slot: usize,
    pub draw: u32,
}

/// A bank of Poisson clocks sharing one generator.
#[derive(Debug)]
pub struct Clockwork {
    pub cells: Vec<u64>,
    pub rng: u64,
}

/// A time at which every wait the owner's law can produce still fits the
/// clock.
pub open spec fn clock_room(now: u64) -> bool {
    now <= u64::MAX - MAX_WAIT_NANOS
}

impl Clockwork {
    /// A bank of `n` clocks seeded with `seed`, each armed at `now` plus one
    /// wait, drawing in cell order.
    pub fn armed<F: Fn(u32) -> u64>(n: usize, seed: u64, now: u64, wait: &F) -> (c: Clockwork)
        requires
            clock_room(now),
            lawful(wait),
        ensures
            c.cells@.len() == n,
            c.rng == rng_after(seed, n as nat),
            forall|i: int| 0 <= i < n ==> #[trigger] armed_well(c.cells@, seed, now, wait, i),
    {
        let mut cells: Vec<u64> = Vec::new();
        let mut rng = seed;
        let mut i: usize = 0;
        while i < n
            invariant
                clock_room(now),
                lawful(wait),
                i <= n,
                cells@.len() == i,
                rng == rng_after(seed, i as nat),
                forall|k: int| 0 <= k < i ==> #[trigger] armed_well(cells@, seed, now, wait, k),
            decreases n - i,
        {
            let ghost before = cells@;
            let d = next_draw(&mut rng);
            let w = wait(d);
            cells.push(now + w);
            proof {
                assert(cells@[i as int] - now == w);
                assert(d == draw_at(seed, i as nat));
                assert(armed_well(cells@, seed, now, wait, i as int));
                assert forall|k: int| 0 <= k < i + 1 implies #[trigger] armed_well(cells@, seed, now, wait, k) by {
                    if k < i {
                        assert(armed_well(before, seed, now, wait, k));
                        assert(cells@[k] == before[k]);
                    }
                }
            }
            i = i + 1;
        }
        Clockwork { cells, rng }
    }

    /// Rearm every clock at `now` plus one wait, drawing in cell order.
    pub fn rearm_all<F: Fn(u32) -> u64>(&mut self, now: u64, wait: &F)
        requires
            clock_room(now),
            lawful(wait),
        ensures
            final(self).cells@.len() == old(self).cells@.len(),
            final(self).rng == rng_after(old(self).rng, old(self).cells@.len() as nat),
            forall|i: int|
                0 <= i < old(self).cells@.len() ==> #[trigger] armed_well(final(self).cells@, old(self).rng, now, wait, i),
    {
        let fresh = Clockwork::armed(self.cells.len(), self.rng, now, wait);
        *self = fresh;
    }

    /// Fire every clock whose deadline has passed at `now`, in cell order.
    /// Each firing takes one draw for its strength and one for its wait, and
    /// the clock is rearmed at `now` plus that wait. Clocks not yet due keep
    /// their deadlines.
    pub fn fire_due<F: Fn(u32) -> u64>(&mut self, now: u64, wait: &F) -> (fired: Vec<Firing>)
        requires
            clock_room(now),
            lawful(wait),
        ensures
            final(self).cells@.len() == old(self).cells@.len(),
            final(self).rng == rng_after(old(self).rng, 2 * due_before(old(self).cells@, now, old(self).cells@.len() as int)),
            fired@.len() == due_before(old(self).cells@, now, old(self).cells@.len() as int),
            forall|i: int|
                0 <= i < old(self).cells@.len() ==> #[trigger] fired_well(fired@, final(self).cells@, old(self).cells@, old(self).rng, now, wait, i),
    {
        let ghost start = self.rng;
        let ghost cells0 = self.cells@;
        let mut fired: Vec<Firing> = Vec::new();
        let n = self.cells.len();
        let mut slot: usize = 0;
        while slot < n
            invariant
                clock_room(now),
                lawful(wait),
                n == cells0.len(),
                self.cells@.len() == n,
                slot <= n,
                self.rng == rng_after(start, 2 * due_before(cells0, now, slot as int)),
                fired@.len() == due_before(cells0, now, slot as int),
                forall|i: int| slot <= i < n ==> #[trigger] self.cells@[i] == cells0[i],
                forall|i: int| 0 <= i < slot ==> #[trigger] fired_well(fired@, self.cells@, cells0, start, now, wait, i),
            decreases n - slot,
        {
            proof {
                lemma_due_before_monotone(cells0, now, slot as int);
            }
            let ghost fired0 = fired@;
            let ghost cells_before = self.cells@;
            if now < self.cells[slot] {
                proof {
                    assert(due_before(cells0, now, slot + 1) == due_before(cells0, now, slot as int));
                    assert(fired_well(fired@, self.cells@, cells0, start, now, wait, slot as int));
                }
                slot = slot + 1;
                continue;
            }
            let ghost k = due_before(cells0, now, slot as int);
            let strength = next_draw(&mut self.rng);
            let d = next_draw(&mut self.rng);
            let w = wait(d);
            fired.push(Firing { slot, draw: strength });
            self.cells.set(slot, now + w);
            proof {
                assert(rng_after(start, 2 * k + 1) == xorshift(rng_after(start, 2 * k)));
                assert(rng_after(start, 2 * k + 2) == xorshift(rng_after(start, 2 * k + 1)));
                assert(strength == draw_at(start, 2 * k));
                assert(d == draw_at(start, 2 * k + 1));
                assert(due_before(cells0, now, slot + 1) == k + 1);
                assert(2 * (k + 1) == 2 * k + 2);
                assert(fired_well(fired@, self.cells@, cells0, start, now, wait, slot as int));
                assert forall|i: int| 0 <= i < slot implies #[trigger] fired_well(fired@, self.cells@, cells0, start, now, wait, i) by {
                    assert(fired_well(fired0, cells_before, cells0, start, now, wait, i));
                    assert(self.cells@[i] == cells_before[i]);
                    if !(now < cells0[i]) {
                        let k2 = due_before(cells0, now, i);
                        assert(k2 < k);
                        assert(fired@[k2 as int] == fired0[k2 as int]);
                    }
                }
            }
            slot = slot + 1;
        }
        fired
    }
}

/// Clock `i` of a bank fired as [`Clockwork::fire_due`] promises: a clock
/// not due at `now` keeps its deadline; a due clock is the `k`-th firing,
/// where `k` counts the due clocks before it, its strength is draw `2k` and it
/// is rearmed after the wait the owner's law gives draw `2k + 1`.
pub open spec fn fired_well<F: Fn(u32) -> u64>(
    fired: Seq<Firing>,
    cells: Seq<u64>,
    cells0: Seq<u64>,
    start: u64,
    now: u64,
    wait: &F,
    i: int,
) -> bool {
    if now < cells0[i] {
        cells[i] == cells0[i]
    } else {
        let k = due_before(cells0, now, i);
        &&& k < fired.len()
        &&& fired[k as int] == Firing { slot: i as usize, draw: draw_at(start, 2 * k) }
        &&& waits(wait, draw_at(start, 2 * k + 1), cells[i] - now)
        &&& cells[i] >= now
    }
}

proof fn lemma_due_before_monotone(cells: Seq<u64>, now: u64, n: int)
    requires
        n >= 0,
    ensures
        forall|i: int| 0 <= i <= n ==> #[trigger] due_before(cells, now, i) <= due_before(cells, now, n),
        forall|i: int|
            0 <= i < n && !(now < cells[i]) ==> #[trigger] due_before(cells, now, i) < due_before(cells, now, n),
    decreases n,
{
    if n > 0 {
        lemma_due_before_monotone(cells, now, n - 1);
    }
}

/// Column and row of a drain cell.
pub fn drain_cell_grid(slot: usize) -> (cr: (usize, usize))
    requires
        slot < DRAIN_CELLS,
    ensures
        cr.0 == slot % DRAIN_COLS,
        cr.1 == slot / DRAIN_COLS,
        cr.0 < DRAIN_COLS,
        cr.1 < DRAIN_ROWS,
{
    (slot % DRAIN_COLS, slot / DRAIN_COLS)
}

fn copy_deadlines(cells: &Vec<u64>) -> (copy: Vec<u64>)
    ensures
        copy@ == cells@,
{
    let mut copy: Vec<u64> = Vec::new();
    let mut i: usize = 0;
    while i < cells.len()
        invariant
            i <= cells@.len(),
            copy@ == cells@.subrange(0, i as int),
        decreases cells@.len() - i,
    {
        copy.push(cells[i]);
        i = i + 1;
        proof {
            assert(copy@ =~= cells@.subrange(0, i as int));
        }
    }
    proof {
        assert(cells@.subrange(0, cells@.len() as int) =~= cells@);
    }
    copy
}

proof fn lemma_due_before_bounded(cells: Seq<u64>, now: u64, n: int)
    requires
        n >= 0,
    ensures
        due_before(cells, now, n) <= n,
    decreases n,
{
    if n > 0 {
        lemma_due_before_bounded(cells, now, n - 1);
    }
}

/// A quiet six-cell drain field with independent Poisson clocks.
#[derive(Debug)]
pub struct EmptyDrain {
    clocks: Clockwork,
    visible: bool,
}

impl EmptyDrain {
    #[verifier::type_invariant]
    closed spec fn six_cells(self) -> bool {
        self.clocks.cells@.len() == DRAIN_CELLS
    }

    /// Deadlines of the six cells, in cell order.
    pub closed spec fn spec_cells(self) -> Seq<u64> {
        self.clocks.cells@
    }

    /// State of the drain's generator.
    pub closed spec fn spec_rng(self) -> u64 {
        self.clocks.rng
    }

    /// Whether the drain is shown.
    pub closed spec fn spec_visible(self) -> bool {
        self.visible
    }

    /// A hidden drain whose cells are armed at `now`, drawing in cell order.
    pub fn new<F: Fn(u32) -> u64>(now: u64, wait: &F) -> (d: EmptyDrain)
        requires
            clock_room(now),
            lawful(wait),
        ensures
            !d.spec_visible(),
            d.spec_cells().len() == DRAIN_CELLS,
            d.spec_rng() == rng_after(DRAIN_SEED, DRAIN_CELLS as nat),
            forall|i: int| 0 <= i < DRAIN_CELLS ==> #[trigger] armed_well(d.spec_cells(), DRAIN_SEED, now, wait, i),
    {
        EmptyDrain { clocks: Clockwork::armed(DRAIN_CELLS, DRAIN_SEED, now, wait), visible: false }
    }

    /// Whether the drain is shown; a drain always holds six cells.
    pub fn visible(&self) -> (v: bool)
        ensures
            v == self.spec_visible(),
            self.spec_cells().len() == DRAIN_CELLS,
    {
        proof {
            use_type_invariant(self);
        }
        self.visible
    }

    /// Deadline of cell `i`.
    pub fn deadline(&self, i: usize) -> (t: u64)
        requires
            i < self.spec_cells().len(),
        ensures
            t == self.spec_cells()[i as int],
    {
        self.clocks.cells[i]
    }

    /// Show the drain at `now`: every cell whose clock has passed fires one
    /// pulse, in cell order, and is rearmed; at most six pulses come out.
    pub fn show<F: Fn(u32) -> u64>(&mut self, now: u64, wait: &F) -> (pulses: Vec<Firing>)
        requires
            clock_room(now),
            lawful(wait),
        ensures
            final(self).spec_visible(),
            final(self).spec_cells().len() == DRAIN_CELLS,
            final(self).spec_rng() == rng_after(old(self).spec_rng(), 2 * due_before(old(self).spec_cells(), now, DRAIN_CELLS as int)),
            pulses@.len() == due_before(old(self).spec_cells(), now, DRAIN_CELLS as int),
            pulses@.len() <= DRAIN_CELLS,
            forall|i: int|
                0 <= i < DRAIN_CELLS ==> #[trigger] fired_well(pulses@, final(self).spec_cells(), old(self).spec_cells(), old(self).spec_rng(), now, wait, i),
    {
        proof {
            use_type_invariant(&*self);
            lemma_due_before_bounded(self.clocks.cells@, now, DRAIN_CELLS as int);
        }
        let mut clocks = Clockwork { cells: copy_deadlines(&self.clocks.cells), rng: self.clocks.rng };
        let pulses = clocks.fire_due(now, wait);
        *self = EmptyDrain { clocks, visible: true };
        pulses
    }

    /// Hide the drain at `now`. A visible drain rearms every cell, drawing in
    /// cell order, so that its next showing starts from fresh clocks; a
    /// hidden drain is left as it is, so hiding twice acts as hiding once.
    pub fn conceal<F: Fn(u32) -> u64>(&mut self, now: u64, wait: &F)
        requires
            clock_room(now),
            lawful(wait),
        ensures
            !final(self).spec_visible(),
            !old(self).spec_visible() ==> *final(self) == *old(self),
            final(self).spec_cells().len() == DRAIN_CELLS,
            old(self).spec_visible() ==> {
                &&& final(self).spec_rng() == rng_after(old(self).spec_rng(), DRAIN_CELLS as nat)
                &&& forall|i: int|
                    0 <= i < DRAIN_CELLS ==> #[trigger] armed_well(final(self).spec_cells(), old(self).spec_rng(), now, wait, i)
            },
    {
        proof {
            use_type_invariant(&*self);
        }
        if !self.visible {
            return;
        }
        let clocks = Clockwork::armed(DRAIN_CELLS, self.clocks.rng, now, wait);
        *self = EmptyDrain { clocks, visible: false };
    }
}

/// The loading raft's four piston clocks and its visibility.
#[derive(Debug)]
pub struct RaftClock {
    clocks: Clockwork,
    visible: bool,
}

impl RaftClock {
    #[verifier::type_invariant]
    closed spec fn four_pistons(self) -> bool {
        self.clocks.cells@.len() == RAFT_PISTONS
    }

    /// Deadlines of the four pistons, in piston order.
    pub closed spec fn spec_cells(self) -> Seq<u64> {
        self.clocks.cells@
    }

    /// State of the raft's generator.
    pub closed spec fn spec_rng(self) -> u64 {
        self.clocks.rng
    }

    /// Whether the raft is shown.
    pub closed spec fn spec_visible(self) -> bool {
        self.visible
    }

    /// A hidden raft whose pistons are armed at `now`, drawing in piston order.
    pub fn new<F: Fn(u32) -> u64>(now: u64, wait: &F) -> (r: RaftClock)
        requires
            clock_room(now),
            lawful(wait),
        ensures
            !r.spec_visible(),
            r.spec_cells().len() == RAFT_PISTONS,
            r.spec_rng() == rng_after(RAFT_SEED, RAFT_PISTONS as nat),
            forall|i: int| 0 <= i < RAFT_PISTONS ==> #[trigger] armed_well(r.spec_cells(), RAFT_SEED, now, wait, i),
    {
        RaftClock { clocks: Clockwork::armed(RAFT_PISTONS, RAFT_SEED, now, wait), visible: false }
    }

    /// Whether the raft is shown; a raft always holds four pistons.
    pub fn visible(&self) -> (v: bool)
        ensures
            v == self.spec_visible(),
            self.spec_cells().len() == RAFT_PISTONS,
    {
        proof {
            use_type_invariant(self);
        }
        self.visible
    }

    /// Deadline of piston `i`.
    pub fn deadline(&self, i: usize) -> (t: u64)
        requires
            i < self.spec_cells().len(),
        ensures
            t == self.spec_cells()[i as int],
    {
        self.clocks.cells[i]
    }

    /// Show the raft; the owner then ticks it.
    pub fn show(&mut self)
        ensures
            final(self).spec_visible(),
            final(self).spec_cells() == old(self).spec_cells(),
            final(self).spec_rng() == old(self).spec_rng(),
    {
        proof {
            use_type_invariant(&*self);
        }
        self.visible = true;
    }

    /// Hide the raft; its clocks keep running from where they stand.
    pub fn conceal(&mut self)
        ensures
            !final(self).spec_visible(),
            final(self).spec_cells() == old(self).spec_cells(),
            final(self).spec_rng() == old(self).spec_rng(),
    {
        proof {
            use_type_invariant(&*self);
        }
        self.visible = false;
    }

    /// Fire every piston whose deadline has passed at `now`, in piston order,
    /// rearming each; at most four pistons fire.
    pub fn tick<F: Fn(u32) -> u64>(&mut self, now: u64, wait: &F) -> (fired: Vec<Firing>)
        requires
            clock_room(now),
            lawful(wait),
        ensures
            final(self).spec_visible() == old(self).spec_visible(),
            final(self).spec_cells().len() == RAFT_PISTONS,
            final(self).spec_rng() == rng_after(old(self).spec_rng(), 2 * due_before(old(self).spec_cells(), now, RAFT_PISTONS as int)),
            fired@.len() == due_before(old(self).spec_cells(), now, RAFT_PISTONS as int),
            fired@.len() <= RAFT_PISTONS,
            forall|i: int|
                0 <= i < RAFT_PISTONS ==> #[trigger] fired_well(fired@, final(self).spec_cells(), old(self).spec_cells(), old(self).spec_rng(), now, wait, i),
    {
        proof {
            use_type_invariant(&*self);
            lemma_due_before_bounded(self.clocks.cells@, now, RAFT_PISTONS as int);
        }
        let mut clocks = Clockwork { cells: copy_deadlines(&self.clocks.cells), rng: self.clocks.rng };
        let fired = clocks.fire_due(now, wait);
        *self = RaftClock { clocks, visible: self.visible };
        fired
    }
}

} // verus!
