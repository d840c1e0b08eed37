//! `xyz14e3`: a signed 6-byte format for values up to sixteen, 3 exponent
//! bits and three 14-bit mantissas, in a 32-bit word and a 16-bit word.
//!
//! Channels here are already divided by the normalization multiplier that
//! stretches the largest value to exactly sixteen; decoded values are to be
//! multiplied by it.
use crate::custom_shared_format::{
    clamp_units, f32_channel, f32_channel_units, lemma_encoding_error, lemma_encoding_one,
    lemma_encoding_top, lemma_encoding_zero, lemma_one_in_range, SharedExponentFormat,
};
use crate::ieee::{f32_is_finite, f32_is_inf, f32_is_nan, f32_sign, f32_units, lemma_f32_one};
use crate::{bitfield_extract, bitfield_extract_u16};
use vstd::arithmetic::power2::*;
use vstd::prelude::*;

verus! {

pub const XYZ14E3_EXPONENT_BITS: i32 = 3;

pub const XYZ14E3_MANTISSA_BITS: i32 = 14;

pub const XYZ14E3_MANTISSA_BITSU: u32 = 14;

pub const XYZ14E3_EXP_BIAS: i32 = 3;

pub const XYZ14E3_MAX_VALID_BIASED_EXP: i32 = 7;

pub const MAX_XYZ14E3_EXP: u64 = 4;

pub const XYZ14E3_MANTISSA_VALUES: i32 = 16384;

pub const MAX_XYZ14E3_MANTISSA: i32 = XYZ14E3_MANTISSA_VALUES - 1;

pub const MAX_XYZ14E3_MANTISSAU: u32 = 16383;

pub open spec fn xyz14e3_format() -> SharedExponentFormat {
    SharedExponentFormat {
        exponent_bits: 3,
        mantissa_bits: 14,
        max_valid_biased_exp: 7,
        exp_bias: 3,
        mantissa_values: 16384,
        max_mantissa: 16383,
        max_exp: 4,
    }
}

fn format() -> (r: SharedExponentFormat)
    ensures
        r == xyz14e3_format(),
        r.layout_wf(),
        r.unit_ok(149),
{
    proof {
        lemma2_to64();
    }
    SharedExponentFormat {
        exponent_bits: 3,
        mantissa_bits: 14,
        max_valid_biased_exp: 7,
        exp_bias: 3,
        mantissa_values: 16384,
        max_mantissa: 16383,
        max_exp: 4,
    }
}

/// The largest encodable magnitude, in units of `2^-149`.
pub open spec fn xyz14e3_top() -> nat {
    xyz14e3_format().top_units(149)
}

/// The magnitude a channel is encoded from: NaN gives zero, and everything
/// is limited to the largest encodable magnitude.
pub open spec fn xyz14e3_clamped(b: u32) -> nat {
    clamp_units(f32_channel_units(b, true, xyz14e3_top()), xyz14e3_top())
}

/// Shared exponent and mantissas of an encoded vector.
pub open spec fn xyz14e3_encoding(xyz: [u32; 3]) -> (int, nat, nat, nat) {
    xyz14e3_format().encoding(
        f32_channel_units(xyz[0], true, xyz14e3_top()),
        f32_channel_units(xyz[1], true, xyz14e3_top()),
        f32_channel_units(xyz[2], true, xyz14e3_top()),
        xyz14e3_top(),
        149,
    )
}

/// The magnitude of channel `i` (0 x, 1 y, 2 z) of an encoded vector, in
/// units of `2^-149`.
pub open spec fn xyz14e3_units(v: (u32, u16), i: int) -> nat {
    xyz14e3_mantissa(v, i) as nat * pow2(
        xyz14e3_format().step_shift(xyz14e3_exponent(v) as int, 149) as nat,
    )
}

/// Word A: exponent bit 0 in bit 31, the z, y and x sign bits in bits 30..28,
/// then the y and x mantissas. Word B: exponent bits 1 and 2 in bits 15..14,
/// the z mantissa below them.
pub open spec fn xyz14e3_pack(e: u32, x: u32, y: u32, z: u16, xs: u32, ys: u32, zs: u32) -> (u32, u16) {
    (
        ((e & 1u32) << 31u32) | (zs << 30u32) | (ys << 29u32) | (xs << 28u32) | (y << 14u32) | x,
        (((e & 6u32) << 13u32) as u16) | z,
    )
}

pub open spec fn xyz14e3_word(xyz: [u32; 3]) -> (u32, u16) {
    let (e, x, y, z) = xyz14e3_encoding(xyz);
    xyz14e3_pack(
        e as u32,
        x as u32,
        y as u32,
        z as u16,
        xyz[0] >> 31u32,
        xyz[1] >> 31u32,
        xyz[2] >> 31u32,
    )
}

pub open spec fn xyz14e3_exponent(v: (u32, u16)) -> u32 {
    ((v.0 >> 31u32) & 1u32) | ((((v.1 >> 14u16) & 3u16) as u32) << 1u32)
}

pub open spec fn xyz14e3_mantissa(v: (u32, u16), i: int) -> u32 {
    if i == 0 {
        v.0 & 0x3fffu32
    } else if i == 1 {
        (v.0 >> 14u32) & 0x3fffu32
    } else {
        (v.1 & 0x3fffu16) as u32
    }
}

pub open spec fn xyz14e3_negative(v: (u32, u16), i: int) -> bool {
    (v.0 >> (28 + i) as u32) & 1u32 == 1u32
}

/// Encodes three normalized `f32` channels, given as bit patterns.
pub fn encode_normalized(xyz: [u32; 3]) -> (r: (u32, u16))
    ensures
        r == xyz14e3_word(xyz),
{
    let f = format();
    let top = f.top(149);
    let c = [
        f32_channel(xyz[0], true, top),
        f32_channel(xyz[1], true, top),
        f32_channel(xyz[2], true, top),
    ];
    let (m, e) = f.encode_magnitudes(c, top, 149);
    let xsign: u32 = xyz[0] >> 31u32;
    let ysign: u32 = xyz[1] >> 31u32;
    let zsign: u32 = xyz[2] >> 31u32;
    let out_a: u32 = ((e & 1u32) << 31u32) | (zsign << 30u32) | (ysign << 29u32) | (xsign
        << 28u32) | (m[1] << 14u32) | m[0];
    let out_b: u16 = (((e & 6u32) << 13u32) as u16) | (m[2] as u16);
    (out_a, out_b)
}

/// Decodes to three normalized `f32` bit patterns.
pub fn decode_normalized(v: (u32, u16)) -> (r: [u32; 3])
    ensures
        forall|i: int|
            0 <= i < 3 ==> f32_sign(#[trigger] r[i]) == xyz14e3_negative(v, i) && f32_is_finite(r[i])
                && f32_units(r[i]) == xyz14e3_units(v, i),
{
    let f = format();
    let e = bitfield_extract(v.0, 31, 1) | ((bitfield_extract_u16(v.1, 14, 2) as u32) << 1u32);
    let xb = bitfield_extract(v.0, 0, 14);
    let yb = bitfield_extract(v.0, 14, 14);
    let zb = bitfield_extract_u16(v.1, 0, 14) as u32;
    let xs = bitfield_extract(v.0, 28, 1);
    let ys = bitfield_extract(v.0, 29, 1);
    let zs = bitfield_extract(v.0, 30, 1);
    proof {
        lemma_masks(v.0, v.1);
    }
    [
        f.mantissa_to_f32(xs == 1, xb, e),
        f.mantissa_to_f32(ys == 1, yb, e),
        f.mantissa_to_f32(zs == 1, zb, e),
    ]
}

proof fn lemma_masks(a: u32, b: u16)
    by (bit_vector)
    ensures
        (a >> 31u32) & vstd::prelude::sub(1u32 << 1u32, 1u32) == (a >> 31u32) & 1u32,
        (b >> 14u16) & vstd::prelude::sub(1u16 << 2u16, 1u16) == (b >> 14u16) & 3u16,
        ((a >> 31u32) & 1u32) | ((((b >> 14u16) & 3u16) as u32) << 1u32) <= 7,
        (a >> 0u32) & vstd::prelude::sub(1u32 << 14u32, 1u32) == a & 0x3fffu32,
        (a >> 14u32) & vstd::prelude::sub(1u32 << 14u32, 1u32) == (a >> 14u32) & 0x3fffu32,
        a & 0x3fffu32 <= 16383,
        (a >> 14u32) & 0x3fffu32 <= 16383,
        (b >> 0u16) & vstd::prelude::sub(1u16 << 14u16, 1u16) == b & 0x3fffu16,
        b & 0x3fffu16 <= 16383,
        (a >> 28u32) & vstd::prelude::sub(1u32 << 1u32, 1u32) == (a >> 28u32) & 1u32,
        (a >> 29u32) & vstd::prelude::sub(1u32 << 1u32, 1u32) == (a >> 29u32) & 1u32,
        (a >> 30u32) & vstd::prelude::sub(1u32 << 1u32, 1u32) == (a >> 30u32) & 1u32,
{
}

proof fn lemma_fields(e: u32, x: u32, y: u32, z: u16, xs: u32, ys: u32, zs: u32)
    by (bit_vector)
    requires
        e <= 7,
        x <= 16383,
        y <= 16383,
        z <= 16383,
        xs <= 1,
        ys <= 1,
        zs <= 1,
    ensures
        ((((e & 1u32) << 31u32) | (zs << 30u32) | (ys << 29u32) | (xs << 28u32) | (y << 14u32) | x)
            >> 31u32) & 1u32 | ((((((((e & 6u32) << 13u32) as u16) | z) >> 14u16) & 3u16) as u32)
            << 1u32) == e,
        (((e & 1u32) << 31u32) | (zs << 30u32) | (ys << 29u32) | (xs << 28u32) | (y << 14u32) | x)
            & 0x3fffu32 == x,
        ((((e & 1u32) << 31u32) | (zs << 30u32) | (ys << 29u32) | (xs << 28u32) | (y << 14u32) | x)
            >> 14u32) & 0x3fffu32 == y,
        ((((e & 6u32) << 13u32) as u16) | z) & 0x3fffu16 == z,
        ((((e & 1u32) << 31u32) | (zs << 30u32) | (ys << 29u32) | (xs << 28u32) | (y << 14u32) | x)
            >> 28u32) & 1u32 == xs,
        ((((e & 1u32) << 31u32) | (zs << 30u32) | (ys << 29u32) | (xs << 28u32) | (y << 14u32) | x)
            >> 29u32) & 1u32 == ys,
        ((((e & 1u32) << 31u32) | (zs << 30u32) | (ys << 29u32) | (xs << 28u32) | (y << 14u32) | x)
            >> 30u32) & 1u32 == zs,
{
}

proof fn lemma_sign_bit(b: u32)
    by (bit_vector)
    ensures
        b >> 31u32 <= 1,
{
}

/// Decoding an encoded vector keeps each channel's sign and gives back its
/// magnitude, limited to the largest encodable one, within half a mantissa
/// step at the shared exponent.
pub proof fn lemma_xyz14e3_round_trip(xyz: [u32; 3])
    ensures
        forall|i: int|
            0 <= i < 3 ==> {
                let w = xyz14e3_word(xyz);
                let p = pow2(xyz14e3_format().step_shift(xyz14e3_exponent(w) as int, 149) as nat);
                &&& xyz14e3_negative(w, i) == f32_sign(xyz[i])
                &&& xyz14e3_clamped(xyz[i]) <= #[trigger] xyz14e3_units(xyz14e3_word(xyz), i) + p / 2
                &&& xyz14e3_units(w, i) <= xyz14e3_clamped(xyz[i]) + p / 2
            },
{
    let f = xyz14e3_format();
    lemma2_to64();
    assert(f.layout_wf());
    let top = xyz14e3_top();
    let (e, x, y, z) = xyz14e3_encoding(xyz);
    lemma_encoding_error(
        f,
        f32_channel_units(xyz[0], true, top),
        f32_channel_units(xyz[1], true, top),
        f32_channel_units(xyz[2], true, top),
        top,
        149,
    );
    lemma_sign_bit(xyz[0]);
    lemma_sign_bit(xyz[1]);
    lemma_sign_bit(xyz[2]);
    lemma_fields(
        e as u32,
        x as u32,
        y as u32,
        z as u16,
        xyz[0] >> 31u32,
        xyz[1] >> 31u32,
        xyz[2] >> 31u32,
    );
}

/// The encoded word holds the shared exponent and each channel's mantissa
/// and sign.
proof fn lemma_xyz14e3_word(xyz: [u32; 3])
    ensures
        ({
            let (e, m0, m1, m2) = xyz14e3_encoding(xyz);
            let w = xyz14e3_word(xyz);
            let p = pow2(xyz14e3_format().step_shift(e, 149) as nat);
            &&& xyz14e3_exponent(w) == e
            &&& xyz14e3_units(w, 0) == m0 * p
            &&& xyz14e3_units(w, 1) == m1 * p
            &&& xyz14e3_units(w, 2) == m2 * p
            &&& xyz14e3_negative(w, 0) == f32_sign(xyz[0])
            &&& xyz14e3_negative(w, 1) == f32_sign(xyz[1])
            &&& xyz14e3_negative(w, 2) == f32_sign(xyz[2])
        }),
{
    let f = xyz14e3_format();
    lemma2_to64();
    assert(f.layout_wf());
    let top = xyz14e3_top();
    let (e, x, y, z) = xyz14e3_encoding(xyz);
    lemma_encoding_error(
        f,
        f32_channel_units(xyz[0], true, top),
        f32_channel_units(xyz[1], true, top),
        f32_channel_units(xyz[2], true, top),
        top,
        149,
    );
    lemma_sign_bit(xyz[0]);
    lemma_sign_bit(xyz[1]);
    lemma_sign_bit(xyz[2]);
    lemma_fields(
        e as u32,
        x as u32,
        y as u32,
        z as u16,
        xyz[0] >> 31u32,
        xyz[1] >> 31u32,
        xyz[2] >> 31u32,
    );
}

/// NaN channels decode to zero.
pub proof fn lemma_xyz14e3_nan_is_zero(xyz: [u32; 3])
    requires
        f32_is_nan(xyz[0]),
        f32_is_nan(xyz[1]),
        f32_is_nan(xyz[2]),
    ensures
        xyz14e3_units(xyz14e3_word(xyz), 0) == 0,
        xyz14e3_units(xyz14e3_word(xyz), 1) == 0,
        xyz14e3_units(xyz14e3_word(xyz), 2) == 0,
{
    lemma2_to64();
    assert(xyz14e3_format().layout_wf());
    lemma_xyz14e3_word(xyz);
    lemma_encoding_zero(xyz14e3_format(), xyz14e3_top(), 149);
    assert(f32_channel_units(xyz[0], true, xyz14e3_top()) == 0);
    assert(f32_channel_units(xyz[1], true, xyz14e3_top()) == 0);
    assert(f32_channel_units(xyz[2], true, xyz14e3_top()) == 0);
    assert(xyz14e3_encoding(xyz) == (0int, 0nat, 0nat, 0nat));
    vstd::arithmetic::mul::lemma_mul_by_zero_is_zero(
        pow2(xyz14e3_format().step_shift(0, 149) as nat) as int,
    );
}

/// Saturation: infinite channels decode to the largest encodable magnitude,
/// each keeping its sign.
pub proof fn lemma_xyz14e3_infinity_saturates(xyz: [u32; 3])
    requires
        f32_is_inf(xyz[0]),
        f32_is_inf(xyz[1]),
        f32_is_inf(xyz[2]),
    ensures
        xyz14e3_units(xyz14e3_word(xyz), 0) == xyz14e3_top(),
        xyz14e3_units(xyz14e3_word(xyz), 1) == xyz14e3_top(),
        xyz14e3_units(xyz14e3_word(xyz), 2) == xyz14e3_top(),
{
    lemma2_to64();
    assert(xyz14e3_format().layout_wf());
    lemma_xyz14e3_word(xyz);
    lemma_encoding_top(xyz14e3_format(), 149);
}

/// Exact representables: ones come back exactly (`2^149` units).
pub proof fn lemma_xyz14e3_one_is_exact(xyz: [u32; 3])
    requires
        xyz[0] == 0x3f80_0000,
        xyz[1] == 0x3f80_0000,
        xyz[2] == 0x3f80_0000,
    ensures
        xyz14e3_units(xyz14e3_word(xyz), 0) == pow2(149),
        xyz14e3_units(xyz14e3_word(xyz), 1) == pow2(149),
        xyz14e3_units(xyz14e3_word(xyz), 2) == pow2(149),
        !xyz14e3_negative(xyz14e3_word(xyz), 0),
        !xyz14e3_negative(xyz14e3_word(xyz), 1),
        !xyz14e3_negative(xyz14e3_word(xyz), 2),
{
    lemma2_to64();
    assert(xyz14e3_format().layout_wf());
    lemma_f32_one();
    lemma_xyz14e3_word(xyz);
    lemma_one_in_range(xyz14e3_format(), 149);
    lemma_encoding_one(xyz14e3_format(), xyz14e3_top(), 149);
}

} // verus!
