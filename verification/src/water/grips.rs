//! Banks of gripped plates and quivers, each found by its widget identity and
//! ordered by the `f32` total order of its grip.
//!
//! A grip is held as its IEEE-754 bit pattern. [`order_key`] maps a pattern
//! to an unsigned key whose order is `f32::total_cmp`; [`exceeds`] is the
//! IEEE `>` against a non-negative, non-NaN threshold.

use vstd::prelude::*;

use crate::water::engine::{LIFT_SLOTS, QUIVER_SLOTS};
use crate::water::surface::{lift_slots, lift_split};

verus! {

/// Unsigned key whose order is the `f32` total order of the payloads.
pub open spec fn order_key(bits: u32) -> u32 {
    if bits >> 31u32 == 1 {
        !bits
    } else {
        bits | 0x8000_0000u32
    }
}

/// The payload is a NaN.
pub open spec fn is_nan(bits: u32) -> bool {
    bits & 0x7f80_0000u32 == 0x7f80_0000u32 && bits & 0x7f_ffffu32 != 0
}

/// The payload is a zero of either sign.
pub open spec fn is_zero(bits: u32) -> bool {
    bits & 0x7fff_ffffu32 == 0
}

/// `f32::from_bits(bits) > f32::from_bits(threshold)`: neither is a NaN, the
/// first follows the second in the total order, and they are not the two
/// zeros, which IEEE holds equal.
pub open spec fn exceeds(bits: u32, threshold: u32) -> bool {
    &&& !is_nan(bits)
    &&& !is_nan(threshold)
    &&& order_key(bits) > order_key(threshold)
    &&& !(is_zero(bits) && is_zero(threshold))
}

/// The larger of two grips as `f32::max` gives it: a NaN yields to the other
/// value, and of two equal values the first is kept.
pub open spec fn grip_max(a: u32, b: u32) -> u32 {
    if is_nan(a) {
        b
    } else if exceeds(b, a) {
        b
    } else {
        a
    }
}

/// Grip of the tooltip plate that rides the lift table (`0.72`).
pub const TOOLTIP_GRIP_BITS: u32 = 0x3f38_51ec;

/// Below this grip (`0.002`) a plate that is no longer hovered has settled.
pub const PLATE_REST_BITS: u32 = 0x3b03_126f;

/// Below this grip (`0.012`) a quiver has died away.
pub const QUIVER_REST_BITS: u32 = 0x3c44_9ba6;

fn key_of(bits: u32) -> (k: u32)
    ensures
        k == order_key(bits),
{
    if bits >> 31u32 == 1 {
        !bits
    } else {
        bits | 0x8000_0000u32
    }
}

fn nan(bits: u32) -> (n: bool)
    ensures
        n == is_nan(bits),
{
    bits & 0x7f80_0000u32 == 0x7f80_0000u32 && bits & 0x7f_ffffu32 != 0
}

/// Whether `f32::from_bits(bits) > f32::from_bits(threshold)`.
pub fn grip_exceeds(bits: u32, threshold: u32) -> (gt: bool)
    ensures
        gt == exceeds(bits, threshold),
{
    let zeros = bits & 0x7fff_ffffu32 == 0 && threshold & 0x7fff_ffffu32 == 0;
    !nan(bits) && !nan(threshold) && key_of(bits) > key_of(threshold) && !zeros
}

/// The larger of two grips, as `f32::max` gives it.
pub fn max_grip(a: u32, b: u32) -> (m: u32)
    ensures
        m == grip_max(a, b),
{
    if nan(a) {
        b
    } else if grip_exceeds(b, a) {
        b
    } else {
        a
    }
}

/// The total-order key is injective: distinct payloads never tie.
pub proof fn lemma_order_key_injective(a: u32, b: u32)
    ensures
        order_key(a) == order_key(b) ==> a == b,
{
    assert(((a >> 31u32 == 1) && (b >> 31u32 == 1) && !a == !b) ==> a == b) by (bit_vector);
    assert(((a >> 31u32 == 0) && (b >> 31u32 == 0) && (a | 0x8000_0000u32) == (b | 0x8000_0000u32)) ==> a == b) by (bit_vector);
    assert(((a >> 31u32 == 1) && (b >> 31u32 == 0)) ==> !a != (b | 0x8000_0000u32)) by (bit_vector);
    assert(((a >> 31u32 == 0) && (b >> 31u32 == 1)) ==> (a | 0x8000_0000u32) != !b) by (bit_vector);
    assert(a >> 31u32 == 0 || a >> 31u32 == 1) by (bit_vector);
    assert(b >> 31u32 == 0 || b >> 31u32 == 1) by (bit_vector);
}

/// One gripped entry.
#[derive(Clone, Copy, Debug, PartialEq, Eq)]
pub struct Grip<T> {
    /// Identity of the widget that grips.
    pub id: u64,
    /// The grip, as `f32` bits.
    pub grip: u32,
    pub payload: T,
}

/// `p` is an insertion point for a grip of order key `key` in `s`: every
/// entry before it is at least as strong, and the entry at it is weaker.
pub open spec fn is_slot<T>(s: Seq<Grip<T>>, key: u32, p: int) -> bool {
    &&& 0 <= p <= s.len()
    &&& forall|k: int| 0 <= k < p ==> order_key(#[trigger] s[k].grip) >= key
    &&& p < s.len() ==> order_key(s[p].grip) < key
}

/// Insertion point for a grip of order key `key` in `s`: after every entry
/// at least as strong, before the first weaker one.
pub open spec fn slot_for<T>(s: Seq<Grip<T>>, key: u32) -> int {
    choose|p: int| #[trigger] is_slot(s, key, p)
}

/// `orig` ordered strongest grip first, each arrival placed after every
/// entry at least as strong as itself, so that equal grips keep their order.
pub open spec fn sorted_by_grip<T>(orig: Seq<Grip<T>>) -> Seq<Grip<T>>
    decreases orig.len(),
{
    if orig.len() == 0 {
        Seq::empty()
    } else {
        let s = sorted_by_grip(orig.drop_last());
        s.insert(slot_for(s, order_key(orig.last().grip)), orig.last())
    }
}

/// `s` is ordered strongest grip first, and entries of equal grip keep the
/// order of their arrival positions `from`.
pub open spec fn strongest_first<T>(s: Seq<Grip<T>>, from: Seq<int>) -> bool {
    forall|a: int, b: int|
        0 <= a < b < s.len() ==> order_key(#[trigger] s[a].grip) > order_key(#[trigger] s[b].grip) || (
        order_key(s[a].grip) == order_key(s[b].grip) && from[a] < from[b])
}

/// `s` rearranges `orig`: entry `k` of `s` is entry `from[k]` of `orig`, and
/// every entry of `orig` appears exactly once.
pub open spec fn rearranges<T>(s: Seq<Grip<T>>, orig: Seq<Grip<T>>, from: Seq<int>) -> bool {
    &&& s.len() == orig.len()
    &&& from.len() == s.len()
    &&& forall|k: int| 0 <= k < s.len() ==> 0 <= #[trigger] from[k] < orig.len() && s[k] == orig[from[k]]
    &&& forall|k: int, l: int| 0 <= k < l < s.len() ==> #[trigger] from[k] != #[trigger] from[l]
}

/// `s` is a stable ordering of `orig` strongest first.
pub open spec fn is_stable_sort<T>(s: Seq<Grip<T>>, orig: Seq<Grip<T>>) -> bool {
    exists|from: Seq<int>| rearranges(s, orig, from) && strongest_first(s, from)
}

/// The first `n` entries of `s`, or all of them when there are fewer.
pub open spec fn leading<T>(s: Seq<T>, n: int) -> Seq<T> {
    if n < s.len() {
        s.subrange(0, n)
    } else {
        s
    }
}

/// First position holding identity `id`, if any.
pub open spec fn first_with<T>(s: Seq<Grip<T>>, id: u64) -> Option<int> {
    if exists|i: int| 0 <= i < s.len() && s[i].id == id {
        Some(choose|i: int| 0 <= i < s.len() && s[i].id == id && forall|j: int| 0 <= j < i ==> s[j].id != id)
    } else {
        None
    }
}

/// A report for identity `id` folded into `s`: a held entry takes the new
/// payload and the larger grip, and an unknown identity is appended.
pub open spec fn merged<T>(s: Seq<Grip<T>>, id: u64, grip: u32, payload: T) -> Seq<Grip<T>> {
    match first_with(s, id) {
        Some(i) => s.update(i, Grip { id, grip: grip_max(s[i].grip, grip), payload }),
        None => s.push(Grip { id, grip, payload }),
    }
}

/// The hovered identity `id` held in `s`: a held entry takes the new payload
/// and keeps its grip, and an unknown identity is appended with no grip.
pub open spec fn held<T>(s: Seq<Grip<T>>, id: u64, payload: T) -> Seq<Grip<T>> {
    match first_with(s, id) {
        Some(i) => s.update(i, Grip { id, grip: s[i].grip, payload }),
        None => s.push(Grip { id, grip: 0, payload }),
    }
}

/// The entries of `s[..n]` that exceed `threshold` or carry identity `keep`,
/// in order.
pub open spec fn retained<T>(s: Seq<Grip<T>>, threshold: u32, keep: Option<u64>, n: int) -> Seq<Grip<T>>
    decreases n,
{
    if n <= 0 {
        Seq::empty()
    } else if exceeds(s[n - 1].grip, threshold) || keep == Some(s[n - 1].id) {
        retained(s, threshold, keep, n - 1).push(s[n - 1])
    } else {
        retained(s, threshold, keep, n - 1)
    }
}

/// The plates after a pass: settled plates other than the hovered one leave,
/// and past the lift table's capacity only the strongest stay.
pub open spec fn settled<T>(s: Seq<Grip<T>>, keep: Option<u64>) -> Seq<Grip<T>> {
    let r = retained(s, PLATE_REST_BITS, keep, s.len() as int);
    if r.len() > LIFT_SLOTS {
        sorted_by_grip(r).subrange(0, LIFT_SLOTS as int)
    } else {
        r
    }
}

/// A bank of gripped entries.
pub struct GripBank<T> {
    entries: Vec<Grip<T>>,
}

impl<T> View for GripBank<T> {
    type V = Seq<Grip<T>>;

    closed spec fn view(&self) -> Seq<Grip<T>> {
        self.entries@
    }
}

impl<T: Copy> GripBank<T> {
    /// An empty bank.
    pub fn new() -> (b: GripBank<T>)
        ensures
            b@ == Seq::<Grip<T>>::empty(),
    {
        GripBank { entries: Vec::new() }
    }

    /// Number of entries.
    pub fn len(&self) -> (n: usize)
        ensures
            n == self@.len(),
    {
        self.entries.len()
    }

    /// Entry `i`.
    pub fn get(&self, i: usize) -> (g: Grip<T>)
        requires
            i < self@.len(),
        ensures
            g == self@[i as int],
    {
        self.entries[i]
    }

    /// Position of the first entry gripped by `id`.
    pub fn find(&self, id: u64) -> (i: Option<usize>)
        ensures
            match i {
                Some(i) => {
                    &&& i < self@.len()
                    &&& self@[i as int].id == id
                    &&& forall|j: int| 0 <= j < i ==> self@[j].id != id
                },
                None => forall|j: int| 0 <= j < self@.len() ==> self@[j].id != id,
            },
    {
        let mut i: usize = 0;
        while i < self.entries.len()
            invariant
                i <= self@.len(),
                self@ == self.entries@,
                forall|j: int| 0 <= j < i ==> self@[j].id != id,
            decreases self@.len() - i,
        {
            if self.entries[i].id == id {
                return Some(i);
            }
            i = i + 1;
        }
        None
    }

    /// Replace the grip and payload of entry `i`, keeping its identity.
    pub fn update(&mut self, i: usize, grip: u32, payload: T)
        requires
            i < old(self)@.len(),
        ensures
            final(self)@ == old(self)@.update(i as int, Grip { id: old(self)@[i as int].id, grip, payload }),
    {
        let id = self.entries[i].id;
        self.entries.set(i, Grip { id, grip, payload });
    }

    /// Append a new entry.
    pub fn push(&mut self, id: u64, grip: u32, payload: T)
        ensures
            final(self)@ == old(self)@.push(Grip { id, grip, payload }),
    {
        self.entries.push(Grip { id, grip, payload });
    }

    /// Fold in a report for `id`: a held entry takes the new payload and the
    /// larger grip, and an unknown identity is appended.
    pub fn merge(&mut self, id: u64, grip: u32, payload: T)
        ensures
            final(self)@ == merged(old(self)@, id, grip, payload),
    {
        match self.find(id) {
            Some(i) => {
                proof {
                    lemma_first_with_is(self@, id, i as int);
                }
                let g = max_grip(self.entries[i].grip, grip);
                self.entries.set(i, Grip { id, grip: g, payload });
            },
            None => {
                self.entries.push(Grip { id, grip, payload });
            },
        }
    }

    /// Hold the hovered identity `id`: a held entry takes the new payload and
    /// keeps its grip, and an unknown identity is appended with no grip.
    pub fn hold(&mut self, id: u64, payload: T)
        ensures
            final(self)@ == held(old(self)@, id, payload),
    {
        match self.find(id) {
            Some(i) => {
                proof {
                    lemma_first_with_is(self@, id, i as int);
                }
                let g = self.entries[i].grip;
                self.entries.set(i, Grip { id, grip: g, payload });
            },
            None => {
                self.entries.push(Grip { id, grip: 0, payload });
            },
        }
    }

    /// Keep, in order, the entries whose grip exceeds `threshold` or whose
    /// identity is `keep`.
    pub fn retain_exceeding(&mut self, threshold: u32, keep: Option<u64>)
        ensures
            final(self)@ == retained(old(self)@, threshold, keep, old(self)@.len() as int),
    {
        let kept = kept_entries(&self.entries, threshold, keep);
        self.entries = kept;
    }

    /// Keep the first `n` entries.
    pub fn truncate(&mut self, n: usize)
        ensures
            final(self)@ == leading(old(self)@, n as int),
    {
        self.entries.truncate(n);
    }

    /// Order the bank strongest grip first, keeping the arrival order of
    /// equal grips.
    pub fn sort_strongest_first(&mut self)
        ensures
            final(self)@ == sorted_by_grip(old(self)@),
            is_stable_sort(final(self)@, old(self)@),
    {
        let mut entries: Vec<Grip<T>> = Vec::new();
        std::mem::swap(&mut entries, &mut self.entries);
        self.entries = strongest_first_order(&entries);
        proof {
            lemma_sorted_by_grip_is_stable(entries@);
        }
    }

    /// Settle the lift plates after a pass: plates whose grip has fallen to
    /// rest leave unless `keep` hovers them, and past the lift table's
    /// capacity only the strongest stay.
    pub fn settle_plates(&mut self, keep: Option<u64>)
        ensures
            final(self)@ == settled(old(self)@, keep),
    {
        self.retain_exceeding(PLATE_REST_BITS, keep);
        if self.entries.len() > LIFT_SLOTS {
            self.sort_strongest_first();
            self.entries.truncate(LIFT_SLOTS);
        }
    }

    /// Retire the quivers that died away, order the rest strongest first and
    /// hand out those that fit the shader's table.
    pub fn gather_quivers(&mut self) -> (live: Vec<Grip<T>>)
        ensures
            final(self)@ == sorted_by_grip(
                retained(old(self)@, QUIVER_REST_BITS, None, old(self)@.len() as int),
            ),
            live@ == leading(final(self)@, QUIVER_SLOTS as int),
    {
        self.retain_exceeding(QUIVER_REST_BITS, None);
        self.sort_strongest_first();
        let n = if self.entries.len() < QUIVER_SLOTS {
            self.entries.len()
        } else {
            QUIVER_SLOTS
        };
        let mut live: Vec<Grip<T>> = Vec::new();
        let mut i: usize = 0;
        while i < n
            invariant
                n <= self.entries@.len(),
                n == leading(self.entries@, QUIVER_SLOTS as int).len(),
                i <= n,
                live@ == self.entries@.subrange(0, i as int),
            decreases n - i,
        {
            live.push(self.entries[i]);
            i = i + 1;
            proof {
                assert(live@ =~= self.entries@.subrange(0, i as int));
            }
        }
        proof {
            assert(live@ =~= leading(self.entries@, QUIVER_SLOTS as int));
        }
        live
    }

    /// The plates that lift the water this frame: those with any grip,
    /// strongest first, as many as the lift table leaves to image plates
    /// beside `tooltips` tooltips.
    pub fn surface_lifts(&self, tooltips: usize) -> (lifts: Vec<Grip<T>>)
        ensures
            lifts@ == leading(
                sorted_by_grip(retained(self@, 0, None, self@.len() as int)),
                lift_split(tooltips as int).0,
            ),
    {
        let gripped = kept_entries(&self.entries, 0, None);
        let mut lifts = strongest_first_order(&gripped);
        let (image_slots, _) = lift_slots(tooltips);
        lifts.truncate(image_slots);
        lifts
    }
}

/// The entries of `entries` that exceed `threshold` or carry `keep`, in order.
fn kept_entries<T: Copy>(entries: &Vec<Grip<T>>, threshold: u32, keep: Option<u64>) -> (kept: Vec<Grip<T>>)
    ensures
        kept@ == retained(entries@, threshold, keep, entries@.len() as int),
{
    let mut kept: Vec<Grip<T>> = Vec::new();
    let mut i: usize = 0;
    while i < entries.len()
        invariant
            i <= entries@.len(),
            kept@ == retained(entries@, threshold, keep, i as int),
        decreases entries@.len() - i,
    {
        let e = entries[i];
        let held = match keep {
            Some(k) => k == e.id,
            None => false,
        };
        if grip_exceeds(e.grip, threshold) || held {
            kept.push(e);
        }
        i = i + 1;
    }
    kept
}

/// `entries` ordered strongest grip first, equal grips in arrival order.
fn strongest_first_order<T: Copy>(entries: &Vec<Grip<T>>) -> (sorted: Vec<Grip<T>>)
    ensures
        sorted@ == sorted_by_grip(entries@),
{
    let mut sorted: Vec<Grip<T>> = Vec::new();
    let mut i: usize = 0;
    while i < entries.len()
        invariant
            i <= entries@.len(),
            sorted@ == sorted_by_grip(entries@.subrange(0, i as int)),
        decreases entries@.len() - i,
    {
        let e = entries[i];
        let key = key_of(e.grip);
        let mut p: usize = 0;
        while p < sorted.len() && key_of(sorted[p].grip) >= key
            invariant
                p <= sorted@.len(),
                forall|k: int| 0 <= k < p ==> order_key(#[trigger] sorted@[k].grip) >= key,
            decreases sorted@.len() - p,
        {
            p = p + 1;
        }
        proof {
            assert(is_slot(sorted@, key, p as int));
            lemma_slot_for_is(sorted@, key, p as int);
            let prefix = entries@.subrange(0, i + 1);
            assert(prefix.drop_last() =~= entries@.subrange(0, i as int));
            assert(prefix.last() == e);
        }
        sorted.insert(p, e);
        i = i + 1;
    }
    proof {
        assert(entries@.subrange(0, entries@.len() as int) =~= entries@);
    }
    sorted
}

/// A found first position is the one that `first_with` names.
proof fn lemma_first_with_is<T>(s: Seq<Grip<T>>, id: u64, i: int)
    requires
        0 <= i < s.len(),
        s[i].id == id,
        forall|j: int| 0 <= j < i ==> s[j].id != id,
    ensures
        first_with(s, id) == Some(i),
{
    let c = choose|c: int| 0 <= c < s.len() && s[c].id == id && forall|j: int| 0 <= j < c ==> s[j].id != id;
    assert(0 <= c < s.len() && s[c].id == id && forall|j: int| 0 <= j < c ==> s[j].id != id);
    if c < i {
        assert(s[c].id != id);
    } else if c > i {
        assert(s[i].id != id);
    }
}

/// An insertion point found by scanning is the one that `slot_for` names.
proof fn lemma_slot_for_is<T>(s: Seq<Grip<T>>, key: u32, p: int)
    requires
        is_slot(s, key, p),
    ensures
        slot_for(s, key) == p,
{
    let c = slot_for(s, key);
    assert(is_slot(s, key, c));
    if c < p {
        assert(order_key(s[c].grip) >= key);
    } else if c > p {
        assert(order_key(s[p].grip) >= key);
    }
}

/// Some insertion point exists past position `k` when every entry before it
/// is at least as strong.
proof fn lemma_slot_exists<T>(s: Seq<Grip<T>>, key: u32, k: int)
    requires
        0 <= k <= s.len(),
        forall|j: int| 0 <= j < k ==> order_key(#[trigger] s[j].grip) >= key,
    ensures
        is_slot(s, key, slot_for(s, key)),
    decreases s.len() - k,
{
    if k == s.len() || order_key(s[k].grip) < key {
        assert(is_slot(s, key, k));
        lemma_slot_for_is(s, key, k);
    } else {
        lemma_slot_exists(s, key, k + 1);
    }
}

/// Inserting an arrival at its slot into a stable ordering of the earlier
/// arrivals rearranges all of them.
proof fn lemma_insert_rearranges<T>(before: Seq<Grip<T>>, rest: Seq<Grip<T>>, from_before: Seq<int>, e: Grip<T>, p: int)
    requires
        rearranges(before, rest, from_before),
        0 <= p <= before.len(),
    ensures
        rearranges(before.insert(p, e), rest.push(e), from_before.insert(p, rest.len() as int)),
{
    let n = rest.len() as int;
    let orig = rest.push(e);
    let sorted = before.insert(p, e);
    let from = from_before.insert(p, n);
    assert forall|k: int| 0 <= k < n + 1 implies 0 <= #[trigger] from[k] < n + 1 && sorted[k] == orig[from[k]] by {
        if k < p {
            assert(from[k] == from_before[k]);
        } else if k > p {
            assert(from[k] == from_before[k - 1]);
        }
    }
    assert forall|k: int, l: int| 0 <= k < l < n + 1 implies #[trigger] from[k] != #[trigger] from[l] by {
        if k < p && l > p {
            assert(from[l] == from_before[l - 1]);
        } else if k > p {
            assert(from[k] == from_before[k - 1]);
            assert(from[l] == from_before[l - 1]);
        } else if k == p {
            assert(from[l] == from_before[l - 1]);
        }
    }
}

/// Inserting the latest arrival at its slot keeps a stable ordering
/// strongest first.
proof fn lemma_insert_strongest_first<T>(before: Seq<Grip<T>>, n: int, from_before: Seq<int>, e: Grip<T>, p: int)
    requires
        strongest_first(before, from_before),
        from_before.len() == before.len(),
        forall|k: int| 0 <= k < before.len() ==> 0 <= #[trigger] from_before[k] < n,
        is_slot(before, order_key(e.grip), p),
    ensures
        strongest_first(before.insert(p, e), from_before.insert(p, n)),
{
    let key = order_key(e.grip);
    let sorted = before.insert(p, e);
    let from = from_before.insert(p, n);
    assert forall|k: int| p <= k < before.len() implies order_key(#[trigger] before[k].grip) < key by {
        if k > p {
            assert(order_key(before[p].grip) > order_key(before[k].grip) || order_key(before[p].grip)
                == order_key(before[k].grip));
        }
    }
    assert forall|a: int, b: int| 0 <= a < b < sorted.len() implies order_key(#[trigger] sorted[a].grip) > order_key(
        #[trigger] sorted[b].grip,
    ) || (order_key(sorted[a].grip) == order_key(sorted[b].grip) && from[a] < from[b]) by {
        if a < p && b < p {
            assert(sorted[a] == before[a] && sorted[b] == before[b]);
            assert(from[a] == from_before[a] && from[b] == from_before[b]);
        } else if a < p && b == p {
            assert(sorted[a] == before[a]);
            assert(from[a] == from_before[a]);
        } else if a < p && b > p {
            assert(sorted[a] == before[a] && sorted[b] == before[b - 1]);
        } else if a == p {
            assert(sorted[b] == before[b - 1]);
        } else {
            assert(sorted[a] == before[a - 1] && sorted[b] == before[b - 1]);
            assert(from[a] == from_before[a - 1] && from[b] == from_before[b - 1]);
        }
    }
}

/// Ordering by grip is a stable sort: it rearranges the entries, strongest
/// first, and entries of equal grip keep their arrival order.
pub proof fn lemma_sorted_by_grip_is_stable<T>(orig: Seq<Grip<T>>)
    ensures
        is_stable_sort(sorted_by_grip(orig), orig),
    decreases orig.len(),
{
    if orig.len() == 0 {
        let from: Seq<int> = Seq::empty();
        assert(rearranges(sorted_by_grip(orig), orig, from));
        assert(strongest_first(sorted_by_grip(orig), from));
    } else {
        let rest = orig.drop_last();
        let e = orig.last();
        lemma_sorted_by_grip_is_stable(rest);
        let before = sorted_by_grip(rest);
        let from_before = choose|f: Seq<int>| rearranges(before, rest, f) && strongest_first(before, f);
        let key = order_key(e.grip);
        lemma_slot_exists(before, key, 0);
        let p = slot_for(before, key);
        assert(rest.push(e) == orig);
        lemma_insert_rearranges(before, rest, from_before, e, p);
        lemma_insert_strongest_first(before, rest.len() as int, from_before, e, p);
        let from = from_before.insert(p, rest.len() as int);
        assert(rearranges(sorted_by_grip(orig), orig, from));
    }
}

/// Every entry that survives retention exceeds the threshold or carries the
/// kept identity, and it is an entry of the bank.
pub proof fn lemma_retained_members<T>(s: Seq<Grip<T>>, threshold: u32, keep: Option<u64>, n: int, k: int)
    requires
        0 <= n <= s.len(),
        0 <= k < retained(s, threshold, keep, n).len(),
    ensures
        exceeds(retained(s, threshold, keep, n)[k].grip, threshold) || keep == Some(
            retained(s, threshold, keep, n)[k].id,
        ),
        exists|j: int| 0 <= j < n && s[j] == #[trigger] retained(s, threshold, keep, n)[k],
    decreases n,
{
    let r = retained(s, threshold, keep, n);
    let prev = retained(s, threshold, keep, n - 1);
    if n > 0 {
        if k < prev.len() {
            lemma_retained_members(s, threshold, keep, n - 1, k);
            assert(r[k] == prev[k]);
            let j = choose|j: int| 0 <= j < n - 1 && s[j] == #[trigger] prev[k];
            assert(s[j] == r[k]);
        } else {
            assert(r[k] == s[n - 1]);
        }
    }
}

/// An entry of the bank that carries the kept identity survives retention.
pub proof fn lemma_kept_identity_survives<T>(s: Seq<Grip<T>>, threshold: u32, id: u64, n: int, i: int)
    requires
        0 <= i < n <= s.len(),
        s[i].id == id,
    ensures
        exists|k: int| 0 <= k < retained(s, threshold, Some(id), n).len() && #[trigger] retained(
            s,
            threshold,
            Some(id),
            n,
        )[k] == s[i],
    decreases n,
{
    let r = retained(s, threshold, Some(id), n);
    if i == n - 1 {
        assert(r[r.len() - 1] == s[i]);
    } else {
        lemma_kept_identity_survives(s, threshold, id, n - 1, i);
        let prev = retained(s, threshold, Some(id), n - 1);
        let k = choose|k: int| 0 <= k < prev.len() && #[trigger] prev[k] == s[i];
        assert(r[k] == prev[k]);
    }
}

/// The hovered plate is never retired while the lift table has room: if at
/// most `LIFT_SLOTS` plates survive, the hovered one is among them.
pub proof fn lemma_hovered_plate_stays<T>(s: Seq<Grip<T>>, id: u64, i: int)
    requires
        0 <= i < s.len(),
        s[i].id == id,
        retained(s, PLATE_REST_BITS, Some(id), s.len() as int).len() <= LIFT_SLOTS,
    ensures
        exists|k: int| 0 <= k < settled(s, Some(id)).len() && #[trigger] settled(s, Some(id))[k] == s[i],
{
    lemma_kept_identity_survives(s, PLATE_REST_BITS, id, s.len() as int, i);
    let r = retained(s, PLATE_REST_BITS, Some(id), s.len() as int);
    assert(settled(s, Some(id)) == r);
    let k = choose|k: int| 0 <= k < r.len() && #[trigger] r[k] == s[i];
    assert(settled(s, Some(id))[k] == s[i]);
}

/// Every quiver handed out is still alive: its grip exceeds the rest grip.
pub proof fn lemma_gathered_quivers_are_alive<T>(s: Seq<Grip<T>>, k: int)
    requires
        0 <= k < sorted_by_grip(retained(s, QUIVER_REST_BITS, None, s.len() as int)).len(),
    ensures
        exceeds(sorted_by_grip(retained(s, QUIVER_REST_BITS, None, s.len() as int))[k].grip, QUIVER_REST_BITS),
{
    let r = retained(s, QUIVER_REST_BITS, None, s.len() as int);
    lemma_sorted_by_grip_is_stable(r);
    let sorted = sorted_by_grip(r);
    let from = choose|f: Seq<int>| rearranges(sorted, r, f) && strongest_first(sorted, f);
    assert(sorted[k] == r[from[k]]);
    lemma_retained_members(s, QUIVER_REST_BITS, None, s.len() as int, from[k]);
}

/// No two entries of `s` carry the same identity.
pub open spec fn unique_ids<T>(s: Seq<Grip<T>>) -> bool {
    forall|a: int, b: int| 0 <= a < b < s.len() ==> #[trigger] s[a].id != #[trigger] s[b].id
}

proof fn lemma_first_with_scan<T>(s: Seq<Grip<T>>, id: u64, k: int)
    requires
        0 <= k <= s.len(),
        forall|j: int| 0 <= j < k ==> s[j].id != id,
        exists|i: int| k <= i < s.len() && s[i].id == id,
    ensures
        first_with(s, id) matches Some(i) && 0 <= i < s.len() && s[i].id == id,
    decreases s.len() - k,
{
    let w = choose|i: int| k <= i < s.len() && s[i].id == id;
    if s[k].id == id {
        lemma_first_with_is(s, id, k);
    } else {
        assert(w != k);
        lemma_first_with_scan(s, id, k + 1);
    }
}

/// `first_with` names an entry carrying the identity whenever one exists.
proof fn lemma_first_with_found<T>(s: Seq<Grip<T>>, id: u64)
    ensures
        first_with(s, id) matches Some(i) ==> 0 <= i < s.len() && s[i].id == id,
        first_with(s, id) is None ==> forall|j: int| 0 <= j < s.len() ==> s[j].id != id,
{
    if exists|i: int| 0 <= i < s.len() && s[i].id == id {
        lemma_first_with_scan(s, id, 0);
    }
}

/// Folding in a report or holding a hovered plate keeps identities unique,
/// and afterwards the bank carries the reported identity.
pub proof fn lemma_reports_keep_ids_unique<T>(s: Seq<Grip<T>>, id: u64, grip: u32, payload: T)
    requires
        unique_ids(s),
    ensures
        unique_ids(merged(s, id, grip, payload)),
        unique_ids(held(s, id, payload)),
        exists|k: int| 0 <= k < merged(s, id, grip, payload).len() && #[trigger] merged(s, id, grip, payload)[k].id == id,
        exists|k: int| 0 <= k < held(s, id, payload).len() && #[trigger] held(s, id, payload)[k].id == id,
        merged(s, id, grip, payload).len() <= s.len() + 1,
        held(s, id, payload).len() <= s.len() + 1,
{
    lemma_first_with_found(s, id);
    let m = merged(s, id, grip, payload);
    let h = held(s, id, payload);
    match first_with(s, id) {
        Some(i) => {
            assert(forall|k: int| 0 <= k < s.len() ==> #[trigger] m[k].id == s[k].id);
            assert(forall|k: int| 0 <= k < s.len() ==> #[trigger] h[k].id == s[k].id);
            assert(m[i].id == id);
            assert(h[i].id == id);
        },
        None => {
            assert(forall|k: int| 0 <= k < s.len() ==> #[trigger] m[k] == s[k]);
            assert(forall|k: int| 0 <= k < s.len() ==> #[trigger] h[k] == s[k]);
            assert(m[s.len() as int].id == id);
            assert(h[s.len() as int].id == id);
        },
    }
}

/// Retention keeps identities unique.
pub proof fn lemma_retained_keeps_ids_unique<T>(s: Seq<Grip<T>>, threshold: u32, keep: Option<u64>, n: int)
    requires
        unique_ids(s),
        0 <= n <= s.len(),
    ensures
        unique_ids(retained(s, threshold, keep, n)),
    decreases n,
{
    if n > 0 {
        lemma_retained_keeps_ids_unique(s, threshold, keep, n - 1);
        let prev = retained(s, threshold, keep, n - 1);
        let r = retained(s, threshold, keep, n);
        if r != prev {
            assert forall|a: int, b: int| 0 <= a < b < r.len() implies #[trigger] r[a].id != #[trigger] r[b].id by {
                if b == r.len() - 1 {
                    lemma_retained_members(s, threshold, keep, n - 1, a);
                    let j = choose|j: int| 0 <= j < n - 1 && s[j] == #[trigger] prev[a];
                    assert(r[a] == s[j]);
                    assert(r[b] == s[n - 1]);
                } else {
                    assert(r[a] == prev[a] && r[b] == prev[b]);
                }
            }
        }
    }
}

/// Ordering by grip keeps identities unique.
pub proof fn lemma_sorted_keeps_ids_unique<T>(s: Seq<Grip<T>>)
    requires
        unique_ids(s),
    ensures
        unique_ids(sorted_by_grip(s)),
{
    lemma_sorted_by_grip_is_stable(s);
    let t = sorted_by_grip(s);
    let from = choose|f: Seq<int>| rearranges(t, s, f) && strongest_first(t, f);
    assert forall|a: int, b: int| 0 <= a < b < t.len() implies #[trigger] t[a].id != #[trigger] t[b].id by {
        assert(t[a] == s[from[a]] && t[b] == s[from[b]]);
        assert(from[a] != from[b]);
        if from[a] < from[b] {
            assert(s[from[a]].id != s[from[b]].id);
        } else {
            assert(s[from[b]].id != s[from[a]].id);
        }
    }
}

/// Settling keeps the lift plates within the lift table, keeps their
/// identities unique, and keeps only plates that still grip or are hovered.
pub proof fn lemma_settled_plates<T>(s: Seq<Grip<T>>, keep: Option<u64>, k: int)
    requires
        unique_ids(s),
    ensures
        settled(s, keep).len() <= LIFT_SLOTS,
        unique_ids(settled(s, keep)),
        0 <= k < settled(s, keep).len() ==> exceeds(settled(s, keep)[k].grip, PLATE_REST_BITS) || keep
            == Some(settled(s, keep)[k].id),
{
    let n = s.len() as int;
    let r = retained(s, PLATE_REST_BITS, keep, n);
    lemma_retained_keeps_ids_unique(s, PLATE_REST_BITS, keep, n);
    if r.len() > LIFT_SLOTS {
        lemma_sorted_keeps_ids_unique(r);
        lemma_sorted_by_grip_is_stable(r);
        let t = sorted_by_grip(r);
        let from = choose|f: Seq<int>| rearranges(t, r, f) && strongest_first(t, f);
        let out = t.subrange(0, LIFT_SLOTS as int);
        assert(settled(s, keep) == out);
        assert forall|a: int, b: int| 0 <= a < b < out.len() implies #[trigger] out[a].id != #[trigger] out[b].id by {
            assert(out[a] == t[a] && out[b] == t[b]);
        }
        if 0 <= k < out.len() {
            assert(out[k] == r[from[k]]);
            lemma_retained_members(s, PLATE_REST_BITS, keep, n, from[k]);
        }
    } else if 0 <= k < r.len() {
        lemma_retained_members(s, PLATE_REST_BITS, keep, n, k);
    }
}

/// In a bank ordered strongest first, no entry grips less than the entry
/// after it in the `f32` total order.
pub proof fn lemma_strongest_first_orders_by_key<T>(s: Seq<Grip<T>>, orig: Seq<Grip<T>>, k: int)
    requires
        is_stable_sort(s, orig),
        0 <= k < s.len() - 1,
    ensures
        order_key(s[k].grip) >= order_key(s[k + 1].grip),
{
}

/// Whether the hovered plate changed since the last pass: the plate that was
/// left is struck on exit and the newly hovered plate on entry.
pub open spec fn hover_strikes(active: Option<u64>, memo: Option<u64>) -> (bool, bool) {
    if active != memo {
        (memo is Some, active is Some)
    } else {
        (false, false)
    }
}

/// Decide the exit and entry strikes of a hover change.
pub fn hover_transition(active: Option<u64>, memo: Option<u64>) -> (strikes: (bool, bool))
    ensures
        strikes == hover_strikes(active, memo),
{
    let same = match (active, memo) {
        (Some(a), Some(m)) => a == m,
        (None, None) => true,
        _ => false,
    };
    if same {
        (false, false)
    } else {
        (memo.is_some(), active.is_some())
    }
}

} // verus!
