//! `xyz9e2`: a signed 4-byte format for values below one, 2 exponent bits
//! and three 9-bit mantissas, each with a sign bit beside it.
//!
//! Channels here are already divided by the normalization multiplier that
//! stretches the largest value to exactly one; decoded values are to be
//! multiplied by it.
use crate::bitfield_extract;
use crate::custom_shared_format::{
    clamp_units, f32_channel, f32_channel_units, lemma_encoding_error, lemma_encoding_top,
    lemma_encoding_zero, SharedExponentFormat,
};
use crate::ieee::{f32_is_finite, f32_is_inf, f32_is_nan, f32_sign, f32_units};
use vstd::arithmetic::power2::*;
use vstd::prelude::*;

verus! {

pub const NAME: &'static str = "xyz9e2";

pub const BYTES: u8 = 4;

pub const SIGNED: bool = true;

pub const XYZ9E2_EXPONENT_BITS: i32 = 2;

pub const XYZ9E2_MANTISSA_BITS: i32 = 9;

pub const XYZ9E2_MANTISSA_BITSU: u32 = 9;

/// Wider than half the exponent range, so that every value lies below one.
pub const XYZ9E2_EXP_BIAS: i32 = 3;

pub const XYZ9E2_MAX_VALID_BIASED_EXP: i32 = 3;

pub const MAX_XYZ9E2_EXP: i32 = XYZ9E2_MAX_VALID_BIASED_EXP - XYZ9E2_EXP_BIAS;

pub const XYZ9E2_MANTISSA_VALUES: i32 = 512;

pub const MAX_XYZ9E2_MANTISSA: i32 = XYZ9E2_MANTISSA_VALUES - 1;

pub const MAX_XYZ9E2_MANTISSAU: u32 = 511;

pub open spec fn xyz9e2_format() -> SharedExponentFormat {
    SharedExponentFormat {
        exponent_bits: 2,
        mantissa_bits: 9,
        max_valid_biased_exp: 3,
        exp_bias: 3,
        mantissa_values: 512,
        max_mantissa: 511,
        max_exp: 0,
    }
}

fn format() -> (r: SharedExponentFormat)
    ensures
        r == xyz9e2_format(),
        r.layout_wf(),
        r.unit_ok(149),
{
    proof {
        lemma2_to64();
    }
    SharedExponentFormat {
        exponent_bits: 2,
        mantissa_bits: 9,
        max_valid_biased_exp: 3,
        exp_bias: 3,
        mantissa_values: 512,
        max_mantissa: 511,
        max_exp: 0,
    }
}

/// The largest encodable magnitude, in units of `2^-149`.
pub open spec fn xyz9e2_top() -> nat {
    xyz9e2_format().top_units(149)
}

/// The magnitude a channel is encoded from: NaN gives zero, and everything
/// is limited to the largest encodable magnitude.
pub open spec fn xyz9e2_clamped(b: u32) -> nat {
    clamp_units(f32_channel_units(b, true, xyz9e2_top()), xyz9e2_top())
}

/// Shared exponent and mantissas of an encoded vector.
pub open spec fn xyz9e2_encoding(xyz: [u32; 3]) -> (int, nat, nat, nat) {
    xyz9e2_format().encoding(
        f32_channel_units(xyz[0], true, xyz9e2_top()),
        f32_channel_units(xyz[1], true, xyz9e2_top()),
        f32_channel_units(xyz[2], true, xyz9e2_top()),
        xyz9e2_top(),
        149,
    )
}

/// Bits 31..30 hold the exponent; below it three 10-bit fields for z,
/// y and x, each a 9-bit mantissa with its sign bit on top.
pub open spec fn xyz9e2_pack(e: u32, x: u32, y: u32, z: u32, xs: u32, ys: u32, zs: u32) -> u32 {
    (e << 30u32) | ((z | (zs << 9u32)) << 20u32) | ((y | (ys << 9u32)) << 10u32) | (x | (xs
        << 9u32))
}

pub open spec fn xyz9e2_word(xyz: [u32; 3]) -> u32 {
    let (e, x, y, z) = xyz9e2_encoding(xyz);
    xyz9e2_pack(
        e as u32,
        x as u32,
        y as u32,
        z as u32,
        xyz[0] >> 31u32,
        xyz[1] >> 31u32,
        xyz[2] >> 31u32,
    )
}

pub open spec fn xyz9e2_exponent(v: u32) -> u32 {
    (v >> 30u32) & 0x3u32
}

/// The sign-and-mantissa field of channel `i` (0 x, 1 y, 2 z).
pub open spec fn xyz9e2_field(v: u32, i: int) -> u32 {
    if i == 0 {
        v & 0x3ffu32
    } else if i == 1 {
        (v >> 10u32) & 0x3ffu32
    } else {
        (v >> 20u32) & 0x3ffu32
    }
}

pub open spec fn xyz9e2_negative(v: u32, i: int) -> bool {
    xyz9e2_field(v, i) & 0x200u32 != 0
}

/// The magnitude of channel `i` of an encoded vector, in units of `2^-149`.
pub open spec fn xyz9e2_units(v: u32, i: int) -> nat {
    (xyz9e2_field(v, i) & 0x1ffu32) as nat * pow2(
        xyz9e2_format().step_shift(xyz9e2_exponent(v) as int, 149) as nat,
    )
}

/// Encodes three normalized `f32` channels, given as bit patterns.
pub fn encode_normalized(xyz: [u32; 3]) -> (r: u32)
    ensures
        r == xyz9e2_word(xyz),
{
    let f = format();
    let top = f.top(149);
    let c = [
        f32_channel(xyz[0], true, top),
        f32_channel(xyz[1], true, top),
        f32_channel(xyz[2], true, top),
    ];
    let (m, e) = f.encode_magnitudes(c, top, 149);
    let xm = m[0] | ((xyz[0] >> 31u32) << 9u32);
    let ym = m[1] | ((xyz[1] >> 31u32) << 9u32);
    let zm = m[2] | ((xyz[2] >> 31u32) << 9u32);
    (e << 30u32) | (zm << 20u32) | (ym << 10u32) | xm
}

fn channel(f: &SharedExponentFormat, field: u32, e: u32) -> (r: u32)
    requires
        *f == xyz9e2_format(),
        f.layout_wf(),
        field <= 0x3ff,
        e <= 3,
    ensures
        f32_sign(r) == (field & 0x200u32 != 0),
        f32_is_finite(r),
        f32_units(r) == (field & 0x1ffu32) as nat * pow2(f.step_shift(e as int, 149) as nat),
{
    assert(field & 0x1ffu32 <= 511) by (bit_vector);
    f.mantissa_to_f32(field & 0x200u32 != 0, field & 0x1ffu32, e)
}

/// Decodes to three normalized `f32` bit patterns.
pub fn decode_normalized(v: u32) -> (r: [u32; 3])
    ensures
        forall|i: int|
            0 <= i < 3 ==> f32_sign(#[trigger] r[i]) == xyz9e2_negative(v, i) && f32_is_finite(r[i])
                && f32_units(r[i]) == xyz9e2_units(v, i),
{
    let f = format();
    let e = bitfield_extract(v, 30, 2);
    let xb = bitfield_extract(v, 0, 10);
    let yb = bitfield_extract(v, 10, 10);
    let zb = bitfield_extract(v, 20, 10);
    proof {
        lemma_masks(v);
    }
    [channel(&f, xb, e), channel(&f, yb, e), channel(&f, zb, e)]
}

proof fn lemma_masks(v: u32)
    by (bit_vector)
    ensures
        (v >> 30u32) & vstd::prelude::sub(1u32 << 2u32, 1u32) == (v >> 30u32) & 0x3u32,
        (v >> 30u32) & 0x3u32 <= 3,
        (v >> 0u32) & vstd::prelude::sub(1u32 << 10u32, 1u32) == v & 0x3ffu32,
        (v >> 10u32) & vstd::prelude::sub(1u32 << 10u32, 1u32) == (v >> 10u32) & 0x3ffu32,
        (v >> 20u32) & vstd::prelude::sub(1u32 << 10u32, 1u32) == (v >> 20u32) & 0x3ffu32,
        v & 0x3ffu32 <= 0x3ff,
        (v >> 10u32) & 0x3ffu32 <= 0x3ff,
        (v >> 20u32) & 0x3ffu32 <= 0x3ff,
{
}

proof fn lemma_fields(e: u32, x: u32, y: u32, z: u32, xs: u32, ys: u32, zs: u32)
    by (bit_vector)
    requires
        e <= 3,
        x <= 511,
        y <= 511,
        z <= 511,
        xs <= 1,
        ys <= 1,
        zs <= 1,
    ensures
        ((((e << 30u32) | ((z | (zs << 9u32)) << 20u32) | ((y | (ys << 9u32)) << 10u32) | (x | (xs
            << 9u32))) >> 30u32) & 0x3u32) == e,
        (((e << 30u32) | ((z | (zs << 9u32)) << 20u32) | ((y | (ys << 9u32)) << 10u32) | (x | (xs
            << 9u32))) & 0x3ffu32) & 0x1ffu32 == x,
        ((((e << 30u32) | ((z | (zs << 9u32)) << 20u32) | ((y | (ys << 9u32)) << 10u32) | (x | (xs
            << 9u32))) >> 10u32) & 0x3ffu32) & 0x1ffu32 == y,
        ((((e << 30u32) | ((z | (zs << 9u32)) << 20u32) | ((y | (ys << 9u32)) << 10u32) | (x | (xs
            << 9u32))) >> 20u32) & 0x3ffu32) & 0x1ffu32 == z,
        ((((e << 30u32) | ((z | (zs << 9u32)) << 20u32) | ((y | (ys << 9u32)) << 10u32) | (x | (xs
            << 9u32))) & 0x3ffu32) & 0x200u32 != 0) == (xs == 1),
        ((((e << 30u32) | ((z | (zs << 9u32)) << 20u32) | ((y | (ys << 9u32)) << 10u32) | (x | (xs
            << 9u32))) >> 10u32) & 0x3ffu32) & 0x200u32 != 0 == (ys == 1),
        ((((e << 30u32) | ((z | (zs << 9u32)) << 20u32) | ((y | (ys << 9u32)) << 10u32) | (x | (xs
            << 9u32))) >> 20u32) & 0x3ffu32) & 0x200u32 != 0 == (zs == 1),
{
}

proof fn lemma_sign_bit(b: u32)
    by (bit_vector)
    ensures
        b >> 31u32 <= 1,
{
}

/// Decoding an encoded vector keeps each channel's sign and gives back its
/// magnitude, limited to the largest encodable one, within half a mantissa
/// step at the shared exponent.
pub proof fn lemma_xyz9e2_round_trip(xyz: [u32; 3])
    ensures
        forall|i: int|
            0 <= i < 3 ==> {
                let w = xyz9e2_word(xyz);
                let p = pow2(xyz9e2_format().step_shift(xyz9e2_exponent(w) as int, 149) as nat);
                &&& xyz9e2_negative(w, i) == f32_sign(xyz[i])
                &&& xyz9e2_clamped(xyz[i]) <= #[trigger] xyz9e2_units(xyz9e2_word(xyz), i) + p / 2
                &&& xyz9e2_units(w, i) <= xyz9e2_clamped(xyz[i]) + p / 2
            },
{
    let f = xyz9e2_format();
    lemma2_to64();
    assert(f.layout_wf());
    let top = xyz9e2_top();
    let (e, x, y, z) = xyz9e2_encoding(xyz);
    lemma_encoding_error(
        f,
        f32_channel_units(xyz[0], true, top),
        f32_channel_units(xyz[1], true, top),
        f32_channel_units(xyz[2], true, top),
        top,
        149,
    );
    lemma_sign_bit(xyz[0]);
    lemma_sign_bit(xyz[1]);
    lemma_sign_bit(xyz[2]);
    lemma_fields(
        e as u32,
        x as u32,
        y as u32,
        z as u32,
        xyz[0] >> 31u32,
        xyz[1] >> 31u32,
        xyz[2] >> 31u32,
    );
}

/// The encoded word holds the shared exponent and each channel's mantissa
/// and sign.
proof fn lemma_xyz9e2_word(xyz: [u32; 3])
    ensures
        ({
            let (e, m0, m1, m2) = xyz9e2_encoding(xyz);
            let w = xyz9e2_word(xyz);
            let p = pow2(xyz9e2_format().step_shift(e, 149) as nat);
            &&& xyz9e2_exponent(w) == e
            &&& xyz9e2_units(w, 0) == m0 * p
            &&& xyz9e2_units(w, 1) == m1 * p
            &&& xyz9e2_units(w, 2) == m2 * p
            &&& xyz9e2_negative(w, 0) == f32_sign(xyz[0])
            &&& xyz9e2_negative(w, 1) == f32_sign(xyz[1])
            &&& xyz9e2_negative(w, 2) == f32_sign(xyz[2])
        }),
{
    let f = xyz9e2_format();
    lemma2_to64();
    assert(f.layout_wf());
    let top = xyz9e2_top();
    let (e, x, y, z) = xyz9e2_encoding(xyz);
    lemma_encoding_error(
        f,
        f32_channel_units(xyz[0], true, top),
        f32_channel_units(xyz[1], true, top),
        f32_channel_units(xyz[2], true, top),
        top,
        149,
    );
    lemma_sign_bit(xyz[0]);
    lemma_sign_bit(xyz[1]);
    lemma_sign_bit(xyz[2]);
    lemma_fields(
        e as u32,
        x as u32,
        y as u32,
        z as u32,
        xyz[0] >> 31u32,
        xyz[1] >> 31u32,
        xyz[2] >> 31u32,
    );
}

/// NaN channels decode to zero.
pub proof fn lemma_xyz9e2_nan_is_zero(xyz: [u32; 3])
    requires
        f32_is_nan(xyz[0]),
        f32_is_nan(xyz[1]),
        f32_is_nan(xyz[2]),
    ensures
        xyz9e2_units(xyz9e2_word(xyz), 0) == 0,
        xyz9e2_units(xyz9e2_word(xyz), 1) == 0,
        xyz9e2_units(xyz9e2_word(xyz), 2) == 0,
{
    lemma2_to64();
    assert(xyz9e2_format().layout_wf());
    lemma_xyz9e2_word(xyz);
    lemma_encoding_zero(xyz9e2_format(), xyz9e2_top(), 149);
    assert(f32_channel_units(xyz[0], true, xyz9e2_top()) == 0);
    assert(f32_channel_units(xyz[1], true, xyz9e2_top()) == 0);
    assert(f32_channel_units(xyz[2], true, xyz9e2_top()) == 0);
    assert(xyz9e2_encoding(xyz) == (0int, 0nat, 0nat, 0nat));
    vstd::arithmetic::mul::lemma_mul_by_zero_is_zero(
        pow2(xyz9e2_format().step_shift(0, 149) as nat) as int,
    );
}

/// Saturation: infinite channels decode to the largest encodable magnitude,
/// each keeping its sign.
pub proof fn lemma_xyz9e2_infinity_saturates(xyz: [u32; 3])
    requires
        f32_is_inf(xyz[0]),
        f32_is_inf(xyz[1]),
        f32_is_inf(xyz[2]),
    ensures
        xyz9e2_units(xyz9e2_word(xyz), 0) == xyz9e2_top(),
        xyz9e2_units(xyz9e2_word(xyz), 1) == xyz9e2_top(),
        xyz9e2_units(xyz9e2_word(xyz), 2) == xyz9e2_top(),
{
    lemma2_to64();
    assert(xyz9e2_format().layout_wf());
    lemma_xyz9e2_word(xyz);
    lemma_encoding_top(xyz9e2_format(), 149);
}

} // verus!
