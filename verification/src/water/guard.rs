//! The numerical guard that watches a persistent water field.
//!
//! Each basin texel stores two little-endian `f32` samples: height, then
//! velocity. The guard reads a mapped copy of the field and reports the first
//! poisoned sample in row-major order. All tests are made on the IEEE-754
//! bit patterns: a sample is nonfinite exactly when its exponent field is all
//! ones, and for finite samples the order of magnitudes is the unsigned order
//! of the bit patterns with the sign bit cleared.

use vstd::prelude::*;
use vstd::bytes::{spec_u32_from_le_bytes, u32_from_le_bytes};

verus! {

/// Bytes per field texel: two `f32` channels.
pub const SIM_BYTES: u32 = 8;

/// Rows of a buffer-texture copy must be padded to this many bytes.
pub const COPY_BYTES_PER_ROW_ALIGNMENT: u32 = 256;

/// A flood is reported only after more railed samples than this floor.
pub const SATURATION_MIN_CELLS: u32 = 512;

/// The flood threshold grows as one railed sample per this many texels.
pub const SATURATION_DENOMINATOR: u32 = 200;

/// `96.0_f32`: the largest admissible height magnitude.
pub const HEIGHT_LIMIT_BITS: u32 = 0x42c0_0000;

/// `2880.0_f32`: the largest admissible velocity magnitude.
pub const VELOCITY_LIMIT_BITS: u32 = 0x4534_0000;

/// `47.0_f32`: a height at or beyond this magnitude rides the rail.
pub const HEIGHT_RAIL_BITS: u32 = 0x423c_0000;

/// `1410.0_f32`: a velocity at or beyond this magnitude rides the rail.
pub const VELOCITY_RAIL_BITS: u32 = 0x44b0_4000;

/// Mask of the `f32` exponent field.
pub const EXPONENT_MASK: u32 = 0x7f80_0000;

/// Mask clearing the `f32` sign bit.
pub const MAGNITUDE_MASK: u32 = 0x7fff_ffff;

/// Why the guard condemned a field.
#[derive(Clone, Copy, Debug, PartialEq, Eq)]
pub enum FaultKind {
    /// A sample is infinite or NaN.
    Nonfinite,
    /// A sample's magnitude exceeds its channel's hard limit.
    Oversize,
    /// More samples ride the rail than the flood threshold admits.
    Saturated { saturated: u32 },
}

/// The first poisoned sample found by the guard.
#[derive(Clone, Copy, Debug, PartialEq, Eq)]
pub struct Fault {
    pub kind: FaultKind,
    pub x: u32,
    pub y: u32,
    pub channel: usize,
    /// The raw `f32` bit pattern of the offending sample.
    pub bits: u32,
}

impl Fault {
    /// Bit pattern of the offending sample's magnitude (`raw.abs()`).
    pub fn magnitude_bits(&self) -> (m: u32)
        ensures
            m == magnitude(self.bits),
    {
        self.bits & MAGNITUDE_MASK
    }
}

/// An `f32` bit pattern whose exponent field is all ones: infinite or NaN.
pub open spec fn is_nonfinite(bits: u32) -> bool {
    bits & EXPONENT_MASK == EXPONENT_MASK
}

/// Bit pattern of the magnitude of an `f32`.
pub open spec fn magnitude(bits: u32) -> u32 {
    bits & MAGNITUDE_MASK
}

/// Hard magnitude limit of a channel (0: height, 1: velocity).
pub open spec fn limit_bits(channel: int) -> u32 {
    if channel == 0 {
        HEIGHT_LIMIT_BITS
    } else {
        VELOCITY_LIMIT_BITS
    }
}

/// Rail magnitude of a channel (0: height, 1: velocity).
pub open spec fn rail_bits(channel: int) -> u32 {
    if channel == 0 {
        HEIGHT_RAIL_BITS
    } else {
        VELOCITY_RAIL_BITS
    }
}

/// Number of railed samples a field of `width` x `height` texels tolerates.
pub open spec fn saturation_limit(width: int, height: int) -> int {
    let scaled = (width * height) / (SATURATION_DENOMINATOR as int);
    if scaled > SATURATION_MIN_CELLS as int {
        scaled
    } else {
        SATURATION_MIN_CELLS as int
    }
}

/// Byte offset of one channel of one texel in a pitched buffer.
pub open spec fn sample_offset(pitch: int, x: int, y: int, channel: int) -> int {
    y * pitch + x * (SIM_BYTES as int) + channel * 4
}

/// The `f32` bit pattern stored little-endian at one channel of one texel.
pub open spec fn sample(bytes: Seq<u8>, pitch: int, x: int, y: int, channel: int) -> u32 {
    let at = sample_offset(pitch, x, y, channel);
    spec_u32_from_le_bytes(bytes.subrange(at, at + 4))
}

/// Whether a sample rides its channel's rail.
pub open spec fn railed(bits: u32, channel: int) -> bool {
    magnitude(bits) >= rail_bits(channel)
}

/// Whether a sample is poisoned on its own: nonfinite or oversize.
pub open spec fn poisoned(bits: u32, channel: int) -> bool {
    is_nonfinite(bits) || magnitude(bits) > limit_bits(channel)
}

/// The guard's verdict on the samples from position `(x, y, channel)` onward
/// in row-major, height-before-velocity order, given that `saturated` railed
/// samples were already counted and at most `limit` are tolerated.
pub open spec fn scan(
    bytes: Seq<u8>,
    width: int,
    height: int,
    pitch: int,
    limit: int,
    x: int,
    y: int,
    channel: int,
    saturated: int,
) -> Option<Fault>
    decreases height - y, width - x, 2 - channel,
{
    if y >= height || y < 0 || x < 0 || channel < 0 {
        None
    } else if x >= width {
        scan(bytes, width, height, pitch, limit, 0, y + 1, 0, saturated)
    } else if channel >= 2 {
        scan(bytes, width, height, pitch, limit, x + 1, y, 0, saturated)
    } else {
        let bits = sample(bytes, pitch, x, y, channel);
        let at = Fault { kind: FaultKind::Nonfinite, x: x as u32, y: y as u32, channel: channel as usize, bits };
        if is_nonfinite(bits) {
            Some(at)
        } else if magnitude(bits) > limit_bits(channel) {
            Some(Fault { kind: FaultKind::Oversize, ..at })
        } else if railed(bits, channel) {
            if saturated + 1 > limit {
                Some(Fault { kind: FaultKind::Saturated { saturated: (saturated + 1) as u32 }, ..at })
            } else {
                scan(bytes, width, height, pitch, limit, x, y, channel + 1, saturated + 1)
            }
        } else {
            scan(bytes, width, height, pitch, limit, x, y, channel + 1, saturated)
        }
    }
}

/// Whether sample position `(xx, yy, cc)` comes at or after `(x, y, c)` in
/// the scan's row-major, height-before-velocity order.
pub open spec fn at_or_after(xx: int, yy: int, cc: int, x: int, y: int, c: int) -> bool {
    yy > y || (yy == y && (xx > x || (xx == x && cc >= c)))
}

/// No sample at or after `(x, y, c)` is nonfinite or oversize.
pub open spec fn clean_from(bytes: Seq<u8>, width: int, height: int, pitch: int, x: int, y: int, c: int) -> bool {
    forall|xx: int, yy: int, cc: int|
        0 <= xx < width && 0 <= yy < height && 0 <= cc < 2 && at_or_after(xx, yy, cc, x, y, c)
            ==> !poisoned(#[trigger] sample(bytes, pitch, xx, yy, cc), cc)
}

/// Number of railed samples at or after `(x, y, c)`.
pub open spec fn railed_from(bytes: Seq<u8>, width: int, height: int, pitch: int, x: int, y: int, c: int) -> nat
    decreases height - y, width - x, 2 - c,
{
    if y >= height || y < 0 || x < 0 || c < 0 {
        0
    } else if x >= width {
        railed_from(bytes, width, height, pitch, 0, y + 1, 0)
    } else if c >= 2 {
        railed_from(bytes, width, height, pitch, x + 1, y, 0)
    } else if railed(sample(bytes, pitch, x, y, c), c) {
        1 + railed_from(bytes, width, height, pitch, x, y, c + 1)
    } else {
        railed_from(bytes, width, height, pitch, x, y, c + 1)
    }
}

proof fn lemma_scan_tail(
    bytes: Seq<u8>,
    width: int,
    height: int,
    pitch: int,
    limit: int,
    x: int,
    y: int,
    c: int,
    s: int,
)
    requires
        width >= 0,
        height >= 0,
        x >= 0,
        y >= 0,
        0 <= c <= 2,
        0 <= s <= limit,
    ensures
        (scan(bytes, width, height, pitch, limit, x, y, c, s) is None) <==> (clean_from(
            bytes,
            width,
            height,
            pitch,
            x,
            y,
            c,
        ) && s + railed_from(bytes, width, height, pitch, x, y, c) <= limit),
    decreases height - y, width - x, 2 - c,
{
    if y >= height {
    } else if x >= width {
        lemma_scan_tail(bytes, width, height, pitch, limit, 0, y + 1, 0, s);
        assert forall|xx: int, yy: int, cc: int|
            0 <= xx < width && 0 <= yy < height && 0 <= cc < 2 implies at_or_after(
                xx,
                yy,
                cc,
                x,
                y,
                c,
            ) == at_or_after(xx, yy, cc, 0, y + 1, 0) by {}
    } else if c >= 2 {
        lemma_scan_tail(bytes, width, height, pitch, limit, x + 1, y, 0, s);
        assert forall|xx: int, yy: int, cc: int|
            0 <= xx < width && 0 <= yy < height && 0 <= cc < 2 implies at_or_after(
                xx,
                yy,
                cc,
                x,
                y,
                c,
            ) == at_or_after(xx, yy, cc, x + 1, y, 0) by {}
    } else {
        let bits = sample(bytes, pitch, x, y, c);
        assert forall|xx: int, yy: int, cc: int|
            0 <= xx < width && 0 <= yy < height && 0 <= cc < 2 implies at_or_after(
                xx,
                yy,
                cc,
                x,
                y,
                c,
            ) == ((xx == x && yy == y && cc == c) || at_or_after(xx, yy, cc, x, y, c + 1)) by {}
        if poisoned(bits, c) {
            assert(!clean_from(bytes, width, height, pitch, x, y, c));
        } else if railed(bits, c) {
            if s + 1 > limit {
            } else {
                lemma_scan_tail(bytes, width, height, pitch, limit, x, y, c + 1, s + 1);
            }
        } else {
            lemma_scan_tail(bytes, width, height, pitch, limit, x, y, c + 1, s);
        }
    }
}

/// The guard passes a field exactly when no sample is nonfinite or oversize
/// and no more samples ride the rail than the flood threshold tolerates.
pub proof fn lemma_guard_passes_iff_clean(
    bytes: Seq<u8>,
    width: int,
    height: int,
    pitch: int,
    limit: int,
)
    requires
        width >= 0,
        height >= 0,
        limit >= 0,
    ensures
        (scan(bytes, width, height, pitch, limit, 0, 0, 0, 0) is None) <==> (clean_from(
            bytes,
            width,
            height,
            pitch,
            0,
            0,
            0,
        ) && railed_from(bytes, width, height, pitch, 0, 0, 0) <= limit),
{
    lemma_scan_tail(bytes, width, height, pitch, limit, 0, 0, 0, 0);
}

/// A height rides the rail exactly when its magnitude is at least `47.0`,
/// and a velocity exactly when its magnitude is at least `1410.0`; neither is
/// poisoned while finite and below its rail.
pub proof fn lemma_rails_of_the_channels(bits: u32)
    ensures
        railed(bits, 0) <==> bits & 0x7fff_ffff >= 0x423c_0000,
        railed(bits, 1) <==> bits & 0x7fff_ffff >= 0x44b0_4000,
        bits & 0x7f80_0000 != 0x7f80_0000 && bits & 0x7fff_ffff < 0x423c_0000 ==> !poisoned(bits, 0),
        bits & 0x7f80_0000 != 0x7f80_0000 && bits & 0x7fff_ffff < 0x44b0_4000 ==> !poisoned(bits, 1),
{
}

/// A texel whose height and velocity are finite and below their rails in
/// magnitude (`47.0` and `1410.0`).
pub open spec fn healthy_texel(bytes: Seq<u8>, pitch: int, x: int, y: int) -> bool {
    let h = sample(bytes, pitch, x, y, 0);
    let v = sample(bytes, pitch, x, y, 1);
    &&& h & 0x7f80_0000 != 0x7f80_0000
    &&& h & 0x7fff_ffff < 0x423c_0000
    &&& v & 0x7f80_0000 != 0x7f80_0000
    &&& v & 0x7fff_ffff < 0x44b0_4000
}

proof fn lemma_railed_from_none(
    bytes: Seq<u8>,
    width: int,
    height: int,
    pitch: int,
    x: int,
    y: int,
    c: int,
)
    requires
        forall|xx: int, yy: int| 0 <= xx < width && 0 <= yy < height ==> #[trigger] healthy_texel(bytes, pitch, xx, yy),
    ensures
        railed_from(bytes, width, height, pitch, x, y, c) == 0,
    decreases height - y, width - x, 2 - c,
{
    if y >= height || y < 0 || x < 0 || c < 0 {
    } else if x >= width {
        lemma_railed_from_none(bytes, width, height, pitch, 0, y + 1, 0);
    } else if c >= 2 {
        lemma_railed_from_none(bytes, width, height, pitch, x + 1, y, 0);
    } else {
        assert(healthy_texel(bytes, pitch, x, y));
        lemma_rails_of_the_channels(sample(bytes, pitch, x, y, c));
        lemma_railed_from_none(bytes, width, height, pitch, x, y, c + 1);
    }
}

/// A healthy field always passes the guard: when every height is finite
/// and below `47.0` in magnitude and every velocity finite and below
/// `1410.0`, the scan reports no fault, whatever the flood threshold.
pub proof fn lemma_healthy_field_passes(bytes: Seq<u8>, width: int, height: int, pitch: int, limit: int)
    requires
        width >= 0,
        height >= 0,
        limit >= 0,
        forall|x: int, y: int| 0 <= x < width && 0 <= y < height ==> #[trigger] healthy_texel(bytes, pitch, x, y),
    ensures
        scan(bytes, width, height, pitch, limit, 0, 0, 0, 0) is None,
{
    lemma_railed_from_none(bytes, width, height, pitch, 0, 0, 0);
    assert forall|xx: int, yy: int, cc: int|
        0 <= xx < width && 0 <= yy < height && 0 <= cc < 2 && at_or_after(xx, yy, cc, 0, 0, 0) implies !poisoned(
        #[trigger] sample(bytes, pitch, xx, yy, cc),
        cc,
    ) by {
        assert(healthy_texel(bytes, pitch, xx, yy));
        lemma_rails_of_the_channels(sample(bytes, pitch, xx, yy, cc));
    }
    lemma_guard_passes_iff_clean(bytes, width, height, pitch, limit);
}

/// A field holding a sample that is infinite or NaN, or a height beyond
/// `96.0` or a velocity beyond `2880.0` in magnitude, never passes the guard.
pub proof fn lemma_poisoned_field_fails(bytes: Seq<u8>, width: int, height: int, pitch: int, limit: int, x: int, y: int, c: int)
    requires
        limit >= 0,
        0 <= x < width,
        0 <= y < height,
        0 <= c < 2,
        ({
            let b = sample(bytes, pitch, x, y, c);
            ||| b & 0x7f80_0000 == 0x7f80_0000
            ||| c == 0 && b & 0x7fff_ffff > 0x42c0_0000
            ||| c == 1 && b & 0x7fff_ffff > 0x4534_0000
        }),
    ensures
        scan(bytes, width, height, pitch, limit, 0, 0, 0, 0) is Some,
{
    assert(at_or_after(x, y, c, 0, 0, 0));
    assert(poisoned(sample(bytes, pitch, x, y, c), c));
    assert(!clean_from(bytes, width, height, pitch, 0, 0, 0));
    lemma_guard_passes_iff_clean(bytes, width, height, pitch, limit);
}

/// Nanoseconds between two probes of one field.
pub const PERIOD_NANOS: u64 = 850_000_000;

/// Progress of the one readback a sentinel may have in flight.
#[derive(Clone, Copy, Debug, PartialEq, Eq)]
pub enum Probe {
    /// The field copy was recorded into a command encoder; `submitted` turns
    /// true once one submission has passed since.
    Copied { submitted: bool },
    /// The copy's buffer is being mapped for reading.
    Mapping,
}

/// What polling the mapping channel reported.
#[derive(Clone, Copy, Debug, PartialEq, Eq)]
pub enum MapPoll {
    /// No answer yet.
    Pending,
    /// The buffer is mapped and may be scanned.
    Ready,
    /// Mapping failed.
    Failed,
    /// The channel died before answering.
    Lost,
}

/// What the owner of a sentinel must do after a submission.
#[derive(Clone, Copy, Debug, PartialEq, Eq)]
pub enum Verdict {
    /// Nothing to report.
    Quiet,
    /// Scan the mapped copy with [`Readback::fault`]; reset the field if it
    /// reports a fault.
    Inspect,
    /// The readback failed: reset the field.
    Reset,
}

/// Periodic watcher of one persistent field: at most one readback in flight.
#[derive(Clone, Copy, Debug, PartialEq, Eq)]
pub struct Sentinel {
    /// Earliest time of the next probe, in nanoseconds on the owner's clock.
    pub next: Option<u64>,
    pub probe: Option<Probe>,
}

/// Sentinel state after [`Sentinel::encode`] at `now`, and whether a copy must
/// be recorded.
pub open spec fn encode_step(s: Sentinel, now: u64) -> (Sentinel, bool) {
    if s.probe is Some || (s.next matches Some(next) && next > now) {
        (s, false)
    } else {
        let next = if now + PERIOD_NANOS <= u64::MAX {
            Some((now + PERIOD_NANOS) as u64)
        } else {
            None
        };
        (Sentinel { next, probe: Some(Probe::Copied { submitted: false }) }, true)
    }
}

/// Sentinel state after [`Sentinel::arm_mapping`], and whether a mapping must
/// be started.
pub open spec fn arm_step(s: Sentinel) -> (Sentinel, bool) {
    match s.probe {
        Some(Probe::Copied { submitted: false }) => (
            Sentinel { probe: Some(Probe::Copied { submitted: true }), ..s },
            false,
        ),
        Some(Probe::Copied { submitted: true }) => (
            Sentinel { probe: Some(Probe::Mapping), ..s },
            true,
        ),
        _ => (s, false),
    }
}

/// Sentinel state after [`Sentinel::settle`] with `poll`, and the verdict.
pub open spec fn settle_step(s: Sentinel, poll: MapPoll) -> (Sentinel, Verdict) {
    if s.probe != Some(Probe::Mapping) {
        (s, Verdict::Quiet)
    } else {
        match poll {
            MapPoll::Pending => (s, Verdict::Quiet),
            MapPoll::Ready => (Sentinel { probe: None, ..s }, Verdict::Inspect),
            MapPoll::Failed => (Sentinel { probe: None, ..s }, Verdict::Reset),
            MapPoll::Lost => (Sentinel { probe: None, ..s }, Verdict::Reset),
        }
    }
}

impl Sentinel {
    /// An idle sentinel, due immediately.
    pub fn new() -> (s: Sentinel)
        ensures
            s == (Sentinel { next: None, probe: None }),
    {
        Sentinel { next: None, probe: None }
    }

    /// Decide whether to record a copy of the field at time `now`.
    ///
    /// A copy is recorded only when no probe is in flight and the period since
    /// the previous copy has elapsed; the next probe is then due one period
    /// later.
    pub fn encode(&mut self, now: u64) -> (copy: bool)
        ensures
            (*final(self), copy) == encode_step(*old(self), now),
    {
        if self.probe.is_some() {
            return false;
        }
        if let Some(next) = self.next {
            if next > now {
                return false;
            }
        }
        self.next = now.checked_add(PERIOD_NANOS);
        self.probe = Some(Probe::Copied { submitted: false });
        true
    }

    /// Advance the probe after one submission; returns whether the copy's
    /// buffer must now be mapped for reading.
    ///
    /// The copy is recorded before its submission, so the first call only
    /// notes that the submission happened; the next call starts the mapping.
    pub fn arm_mapping(&mut self) -> (map: bool)
        ensures
            (*final(self), map) == arm_step(*old(self)),
    {
        match self.probe {
            Some(Probe::Copied { submitted: false }) => {
                self.probe = Some(Probe::Copied { submitted: true });
                false
            },
            Some(Probe::Copied { submitted: true }) => {
                self.probe = Some(Probe::Mapping);
                true
            },
            _ => false,
        }
    }

    /// Whether a mapping is in flight.
    pub fn is_mapping(&self) -> (m: bool)
        ensures
            m == (self.probe == Some(Probe::Mapping)),
    {
        match self.probe {
            Some(Probe::Mapping) => true,
            _ => false,
        }
    }

    /// Resolve a polled mapping: a mapped buffer is handed over for
    /// inspection, a failed or lost one condemns the field, and either way the
    /// probe is retired.
    pub fn settle(&mut self, poll: MapPoll) -> (v: Verdict)
        ensures
            (*final(self), v) == settle_step(*old(self), poll),
    {
        if !self.is_mapping() {
            return Verdict::Quiet;
        }
        match poll {
            MapPoll::Pending => Verdict::Quiet,
            MapPoll::Ready => {
                self.probe = None;
                Verdict::Inspect
            },
            MapPoll::Failed => {
                self.probe = None;
                Verdict::Reset
            },
            MapPoll::Lost => {
                self.probe = None;
                Verdict::Reset
            },
        }
    }

    /// Abandon any probe in flight.
    pub fn disarm(&mut self)
        ensures
            *final(self) == (Sentinel { probe: None, ..*old(self) }),
    {
        self.probe = None;
    }
}

/// A sentinel never has two readbacks in flight: a copy is recorded only
/// from an idle sentinel, and never before the previous probe's period ends.
pub proof fn lemma_one_probe_in_flight(s: Sentinel, now: u64)
    ensures
        encode_step(s, now).1 ==> s.probe is None,
        encode_step(s, now).1 ==> !(s.next matches Some(next) && next > now),
        s.probe is Some ==> encode_step(s, now) == (s, false),
{
}

/// A recorded copy is mapped only after a full submission has passed: the
/// first arming after the copy starts no mapping, the second does, and until
/// it is settled no further copy is recorded.
pub proof fn lemma_copy_maps_on_second_arming(s: Sentinel, now: u64, later: u64)
    requires
        encode_step(s, now).1,
    ensures
        !arm_step(encode_step(s, now).0).1,
        arm_step(arm_step(encode_step(s, now).0).0).1,
        arm_step(arm_step(encode_step(s, now).0).0).0.probe == Some(Probe::Mapping),
        !encode_step(arm_step(arm_step(encode_step(s, now).0).0).0, later).1,
{
}

/// Arming a sentinel that holds no recorded copy changes nothing: an idle
/// sentinel stays idle, and a mapping in flight stays in flight however many
/// submissions pass, so its answer is still inspected when it settles.
pub proof fn lemma_arming_keeps_mapping_in_flight(s: Sentinel)
    requires
        s.probe is None || s.probe == Some(Probe::Mapping),
    ensures
        arm_step(s) == (s, false),
        s.probe == Some(Probe::Mapping) ==> settle_step(arm_step(arm_step(s).0).0, MapPoll::Ready) == (
        Sentinel { probe: None, ..s }, Verdict::Inspect),
{
}

/// Settling a mapping with any answer but `Pending` leaves the sentinel idle;
/// a pending answer changes nothing.
pub proof fn lemma_settle_retires_probe(s: Sentinel, poll: MapPoll)
    requires
        s.probe == Some(Probe::Mapping),
    ensures
        poll != MapPoll::Pending ==> settle_step(s, poll).0.probe is None,
        poll != MapPoll::Pending ==> settle_step(s, poll).0.next == s.next,
        poll == MapPoll::Pending ==> settle_step(s, poll) == (s, Verdict::Quiet),
{
}

/// Smallest multiple of the copy alignment that holds `row` bytes.
pub open spec fn aligned_pitch(row: int) -> int {
    let a = COPY_BYTES_PER_ROW_ALIGNMENT as int;
    ((row + a - 1) / a) * a
}

/// Layout of one mapped copy of a water field.
pub struct Readback {
    pub width: u32,
    pub height: u32,
    pub pitch: u32,
}

impl Readback {
    /// Well-formed geometry: the pitch is the texel row padded to the copy
    /// alignment, computed without overflow.
    pub open spec fn wf(&self) -> bool {
        &&& self.width * SIM_BYTES + 255 <= u32::MAX
        &&& self.pitch as int == aligned_pitch(self.width * SIM_BYTES)
    }

    pub open spec fn spec_width(&self) -> u32 {
        self.width
    }

    pub open spec fn spec_height(&self) -> u32 {
        self.height
    }

    pub open spec fn spec_pitch(&self) -> u32 {
        self.pitch
    }

    /// The scan's 32-bit offsets and cell count do not overflow, and the
    /// mapped bytes reach the last sample.
    pub open spec fn scannable(&self, len: int) -> bool {
        &&& self.width * self.height <= u32::MAX
        &&& (self.height == 0 || (self.height - 1) * self.pitch <= u32::MAX)
        &&& (self.width == 0 || self.height == 0 || (self.height - 1) * self.pitch
            + self.width * SIM_BYTES <= len)
    }

    /// Plan the readback of a `width` x `height` field: the texel row padded
    /// to the copy alignment.
    pub fn new(width: u32, height: u32) -> (rb: Readback)
        requires
            width * SIM_BYTES + 255 <= u32::MAX,
        ensures
            rb.wf(),
            rb.spec_width() == width,
            rb.spec_height() == height,
    {
        let row = width * SIM_BYTES;
        let pitch = row_pitch(row);
        Readback { width, height, pitch }
    }

    pub fn width(&self) -> (w: u32)
        ensures
            w == self.spec_width(),
    {
        self.width
    }

    pub fn height(&self) -> (h: u32)
        ensures
            h == self.spec_height(),
    {
        self.height
    }

    pub fn pitch(&self) -> (p: u32)
        ensures
            p == self.spec_pitch(),
    {
        self.pitch
    }

    /// Size in bytes of the buffer that receives the copy.
    pub fn buffer_size(&self) -> (n: u64)
        ensures
            n == self.spec_pitch() * self.spec_height(),
    {
        proof {
            let a = self.pitch as int;
            let b = self.height as int;
            assert(a * b <= u64::MAX) by (nonlinear_arith)
                requires
                    0 <= a <= u32::MAX,
                    0 <= b <= u32::MAX,
            ;
        }
        (self.pitch as u64) * (self.height as u64)
    }

    /// Railed samples tolerated before the field counts as flooded.
    pub fn saturation_limit(&self) -> (n: u32)
        requires
            self.spec_width() * self.spec_height() <= u32::MAX,
        ensures
            n == saturation_limit(self.spec_width() as int, self.spec_height() as int),
    {
        let scaled = self.width * self.height / SATURATION_DENOMINATOR;
        if SATURATION_MIN_CELLS > scaled {
            SATURATION_MIN_CELLS
        } else {
            scaled
        }
    }

    /// Scan a mapped copy of the field and report its first poisoned sample.
    ///
    /// The result is exactly [`scan`] from the first sample: the earliest
    /// nonfinite or oversize sample, or the sample at which the count of
    /// railed samples first exceeds [`saturation_limit`], whichever comes
    /// first in row-major, height-before-velocity order.
    pub fn fault(&self, bytes: &[u8]) -> (r: Option<Fault>)
        requires
            self.wf(),
            self.scannable(bytes@.len() as int),
        ensures
            r == scan(
                bytes@,
                self.spec_width() as int,
                self.spec_height() as int,
                self.spec_pitch() as int,
                saturation_limit(self.spec_width() as int, self.spec_height() as int),
                0,
                0,
                0,
                0,
            ),
    {
        let limit = self.saturation_limit();
        let ghost w = self.width as int;
        let ghost h = self.height as int;
        let ghost p = self.pitch as int;
        let ghost lim = limit as int;
        let ghost whole = scan(bytes@, w, h, p, lim, 0, 0, 0, 0);
        proof {
            lemma_pitch_holds_row(w);
            lemma_limit_bound(w, h);
        }
        let len = bytes.len();
        let mut saturated: u32 = 0;
        let mut y: u32 = 0;
        while y < self.height
            invariant
                self.wf(),
                self.scannable(bytes@.len() as int),
                w == self.width,
                h == self.height,
                p == self.pitch,
                lim == limit,
                lim <= 0x0200_0000,
                lim == saturation_limit(w, h),
                whole == scan(bytes@, w, h, p, lim, 0, 0, 0, 0),
                p >= w * 8,
                len == bytes@.len(),
                0 <= y <= h,
                saturated <= lim,
                whole == scan(bytes@, w, h, p, lim, 0, y as int, 0, saturated as int),
            decreases h - y,
        {
            proof {
                lemma_row_bounds(w, h, p, y as int, bytes@.len() as int);
            }
            let row = y * self.pitch;
            let mut x: u32 = 0;
            while x < self.width
                invariant
                    self.wf(),
                    self.scannable(bytes@.len() as int),
                    w == self.width,
                    h == self.height,
                    p == self.pitch,
                    lim == limit,
                    lim <= 0x0200_0000,
                    lim == saturation_limit(w, h),
                    whole == scan(bytes@, w, h, p, lim, 0, 0, 0, 0),
                    p >= w * 8,
                    0 <= y < h,
                    row == y * p,
                    len == bytes@.len(),
                    w > 0 ==> y * p + w * 8 <= bytes@.len(),
                    0 <= x <= w,
                    saturated <= lim,
                    whole == scan(bytes@, w, h, p, lim, x as int, y as int, 0, saturated as int),
                decreases w - x,
            {
                proof {
                    assert(x * 8 + 8 <= w * 8);
                }
                let px = row as usize + (x * SIM_BYTES) as usize;
                let mut channel: usize = 0;
                while channel < 2
                    invariant
                        w == self.width,
                        h == self.height,
                        p == self.pitch,
                        lim == limit,
                        lim <= 0x0200_0000,
                        lim == saturation_limit(w, h),
                        whole == scan(bytes@, w, h, p, lim, 0, 0, 0, 0),
                        0 <= y < h,
                        0 <= x < w,
                        px == y * p + x * 8,
                        len == bytes@.len(),
                        y * p + w * 8 <= bytes@.len(),
                        0 <= channel <= 2,
                        saturated <= lim,
                        whole == scan(
                            bytes@,
                            w,
                            h,
                            p,
                            lim,
                            x as int,
                            y as int,
                            channel as int,
                            saturated as int,
                        ),
                    decreases 2 - channel,
                {
                    let at = px + channel * 4;
                    let bits = u32_from_le_bytes(&bytes[at..at + 4]);
                    proof {
                        assert(at as int == sample_offset(p, x as int, y as int, channel as int));
                        assert(bits == sample(bytes@, p, x as int, y as int, channel as int));
                    }
                    let value = bits & MAGNITUDE_MASK;
                    if bits & EXPONENT_MASK == EXPONENT_MASK {
                        return Some(Fault { kind: FaultKind::Nonfinite, x, y, channel, bits });
                    }
                    let limit_bits = if channel == 0 {
                        HEIGHT_LIMIT_BITS
                    } else {
                        VELOCITY_LIMIT_BITS
                    };
                    if value > limit_bits {
                        return Some(Fault { kind: FaultKind::Oversize, x, y, channel, bits });
                    }
                    let rail = if channel == 0 {
                        HEIGHT_RAIL_BITS
                    } else {
                        VELOCITY_RAIL_BITS
                    };
                    if value >= rail {
                        saturated = saturated + 1;
                        if saturated > limit {
                            return Some(
                                Fault { kind: FaultKind::Saturated { saturated }, x, y, channel, bits },
                            );
                        }
                    }
                    channel = channel + 1;
                }
                x = x + 1;
            }
            y = y + 1;
        }
        None
    }
}

/// The aligned pitch computed in 32-bit arithmetic.
pub(crate) fn row_pitch(row: u32) -> (pitch: u32)
    requires
        row <= u32::MAX - 255,
    ensures
        pitch == aligned_pitch(row as int),
        pitch >= row,
{
    let blocks = row / COPY_BYTES_PER_ROW_ALIGNMENT + if row % COPY_BYTES_PER_ROW_ALIGNMENT == 0 {
        0
    } else {
        1
    };
    proof {
        assert(blocks == (row + 255) / 256);
        assert(blocks * 256 >= row);
        assert(blocks * 256 <= row + 255);
    }
    blocks * COPY_BYTES_PER_ROW_ALIGNMENT
}

proof fn lemma_pitch_holds_row(width: int)
    requires
        width >= 0,
    ensures
        aligned_pitch(width * 8) >= width * 8,
{
    let a = (width * 8 + 255) / 256;
    assert(a * 256 >= width * 8) by (nonlinear_arith)
        requires
            a == (width * 8 + 255) / 256,
            width >= 0,
    ;
}

proof fn lemma_limit_bound(w: int, h: int)
    requires
        w >= 0,
        h >= 0,
        w * h <= u32::MAX,
    ensures
        saturation_limit(w, h) <= 0x0200_0000,
{
    assert((w * h) / 200 <= 0x0200_0000) by (nonlinear_arith)
        requires
            w * h <= u32::MAX,
            w * h >= 0,
    ;
}

proof fn lemma_row_bounds(w: int, h: int, p: int, y: int, len: int)
    requires
        0 <= y < h,
        w >= 0,
        p >= w * 8,
        (h - 1) * p <= u32::MAX,
        w == 0 || (h - 1) * p + w * 8 <= len,
    ensures
        y * p <= u32::MAX,
        w > 0 ==> y * p + w * 8 <= len,
{
    assert(y * p <= (h - 1) * p) by (nonlinear_arith)
        requires
            0 <= y <= h - 1,
            p >= 0,
    ;
}

} // verus!
