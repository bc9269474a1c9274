//! The common Poolrooms foundry illuminant.
//!
//! Screen coordinates lie in the x-y plane with +y downward; the viewer lies
//! on +z. The distant key is confined to the y-z plane at 60° above the
//! top-of-screen horizon, so L = (0, -½, √3/2); H is the Blinn-Phong half
//! vector between L and the viewer. The components are kept here as their
//! exact IEEE-754 `f32` payloads, and their geometry is proved on the exact
//! rational values those payloads denote.

use vstd::prelude::*;

verus! {

/// `-0.5_f32`: the key's screen-y component.
pub const LIGHT_Y_BITS: u32 = 0xbf00_0000;
/// `0.866_025_4_f32`: the key's viewer-z component.
pub const LIGHT_Z_BITS: u32 = 0x3f5d_b3d7;
/// `-0.258_819_04_f32`: the half vector's screen-y component.
pub const HALF_Y_BITS: u32 = 0xbe84_83ee;
/// `0.965_925_8_f32`: the half vector's viewer-z component.
pub const HALF_Z_BITS: u32 = 0x3f77_46ea;

/// `2^n`.
pub open spec fn pow2(n: nat) -> nat
    decreases n,
{
    if n == 0 {
        1
    } else {
        2 * pow2((n - 1) as nat)
    }
}

/// Biased exponent field of an `f32` payload.
pub open spec fn exponent_field(bits: u32) -> u32 {
    (bits >> 23u32) & 0xffu32
}

/// Fraction field of an `f32` payload.
pub open spec fn fraction_field(bits: u32) -> u32 {
    bits & 0x7f_ffffu32
}

/// Sign bit of an `f32` payload.
pub open spec fn sign_field(bits: u32) -> u32 {
    bits >> 31u32
}

/// Biased exponent of an `f32` payload.
pub open spec fn biased_exponent(bits: u32) -> int {
    exponent_field(bits) as int
}

/// A normal `f32` payload of magnitude below 2^24, whose value is its signed
/// significand divided by [`denominator`].
pub open spec fn normal_below_2_24(bits: u32) -> bool {
    1 <= biased_exponent(bits) <= 150
}

/// Significand of a normal `f32`, carrying the payload's sign.
pub open spec fn signed_significand(bits: u32) -> int {
    let m = 0x80_0000 + fraction_field(bits) as int;
    if sign_field(bits) == 1 {
        -m
    } else {
        m
    }
}

/// Power of two dividing the significand of a normal `f32` below 2^24.
pub open spec fn denominator(bits: u32) -> int {
    pow2((150 - biased_exponent(bits)) as nat) as int
}

/// `|n|`.
pub open spec fn abs(n: int) -> int {
    if n < 0 {
        -n
    } else {
        n
    }
}

/// The vector with components `a` and `b` has length within `1 / inverse_tolerance`
/// of one (the squared length differs from one by less than that).
pub open spec fn unit_within(a: u32, b: u32, inverse_tolerance: int) -> bool {
    let ma = signed_significand(a);
    let mb = signed_significand(b);
    let da = denominator(a);
    let db = denominator(b);
    abs(ma * ma * db * db + mb * mb * da * da - da * da * db * db) * inverse_tolerance < da * da
        * db * db
}

/// The square of the value of `a` lies within `1 / inverse_tolerance` of
/// `num / den`.
pub open spec fn square_near(a: u32, num: int, den: int, inverse_tolerance: int) -> bool {
    let m = signed_significand(a);
    let d = denominator(a);
    abs(m * m * den - num * d * d) * inverse_tolerance < den * d * d
}

/// The key is a unit vector in the y-z plane, pointing toward the top of the
/// screen and toward the viewer, 60° above the horizon: its y component is
/// exactly -½ (cos 60°) and its z component squares to ¾ (sin² 60°). The half
/// vector is a unit vector as well.
pub proof fn lemma_illuminant_geometry()
    ensures
        normal_below_2_24(LIGHT_Y_BITS),
        normal_below_2_24(LIGHT_Z_BITS),
        normal_below_2_24(HALF_Y_BITS),
        normal_below_2_24(HALF_Z_BITS),
        signed_significand(LIGHT_Y_BITS) < 0,
        signed_significand(LIGHT_Z_BITS) > 0,
        signed_significand(HALF_Y_BITS) < 0,
        signed_significand(HALF_Z_BITS) > 0,
        signed_significand(LIGHT_Y_BITS) * 2 == -denominator(LIGHT_Y_BITS),
        square_near(LIGHT_Z_BITS, 3, 4, 1_000_000),
        unit_within(LIGHT_Y_BITS, LIGHT_Z_BITS, 1_000_000),
        unit_within(HALF_Y_BITS, HALF_Z_BITS, 1_000_000),
{
    assert(exponent_field(LIGHT_Y_BITS) == 126 && fraction_field(LIGHT_Y_BITS) == 0 && sign_field(
        LIGHT_Y_BITS,
    ) == 1) by (bit_vector);
    assert(exponent_field(LIGHT_Z_BITS) == 126 && fraction_field(LIGHT_Z_BITS) == 0x5d_b3d7
        && sign_field(LIGHT_Z_BITS) == 0) by (bit_vector);
    assert(exponent_field(HALF_Y_BITS) == 125 && fraction_field(HALF_Y_BITS) == 0x04_83ee
        && sign_field(HALF_Y_BITS) == 1) by (bit_vector);
    assert(exponent_field(HALF_Z_BITS) == 126 && fraction_field(HALF_Z_BITS) == 0x77_46ea
        && sign_field(HALF_Z_BITS) == 0) by (bit_vector);
    reveal_with_fuel(pow2, 26);
    assert(pow2(24) == 0x100_0000);
    assert(pow2(25) == 0x200_0000);
    let my = signed_significand(LIGHT_Y_BITS);
    let mz = signed_significand(LIGHT_Z_BITS);
    let hy = signed_significand(HALF_Y_BITS);
    let hz = signed_significand(HALF_Z_BITS);
    assert(my == -0x80_0000);
    assert(mz == 0xdd_b3d7);
    assert(hy == -0x84_83ee);
    assert(hz == 0xf7_46ea);
    assert(denominator(LIGHT_Y_BITS) == 0x100_0000);
    assert(denominator(LIGHT_Z_BITS) == 0x100_0000);
    assert(denominator(HALF_Y_BITS) == 0x200_0000);
    assert(denominator(HALF_Z_BITS) == 0x100_0000);
}

} // verus!
