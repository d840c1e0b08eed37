//! `xyz13e6`: a signed 6-byte format, 6 exponent bits and three 13-bit
//! mantissas, in a 32-bit word and a 16-bit word.
use crate::custom_shared_format::{
    clamp_units, f32_channel, f32_channel_units, lemma_encoding_error, lemma_encoding_one,
    lemma_encoding_top, lemma_encoding_zero, lemma_one_in_range, SharedExponentFormat,
};
use crate::ieee::{f32_is_finite, f32_is_inf, f32_is_nan, f32_sign, f32_units, lemma_f32_one};
use crate::{bitfield_extract, bitfield_extract_u16};
use vstd::arithmetic::power2::*;
use vstd::prelude::*;

verus! {

pub const NAME: &'static str = "xyz13e6";

pub const BYTES: u8 = 6;

pub const SIGNED: bool = true;

pub const XYZ13E6_EXPONENT_BITS: i32 = 6;

pub const XYZ13E6_MANTISSA_BITS: i32 = 13;

pub const XYZ13E6_MANTISSA_BITSU: u32 = 13;

pub const XYZ13E6_EXP_BIAS: i32 = 31;

pub const XYZ13E6_MAX_VALID_BIASED_EXP: i32 = 63;

pub const MAX_XYZ13E6_EXP: u64 = 32;

pub const XYZ13E6_MANTISSA_VALUES: i32 = 8192;

pub const MAX_XYZ13E6_MANTISSA: i32 = XYZ13E6_MANTISSA_VALUES - 1;

pub const MAX_XYZ13E6_MANTISSAU: u32 = 8191;

pub open spec fn xyz13e6_format() -> SharedExponentFormat {
    SharedExponentFormat {
        exponent_bits: 6,
        mantissa_bits: 13,
        max_valid_biased_exp: 63,
        exp_bias: 31,
        mantissa_values: 8192,
        max_mantissa: 8191,
        max_exp: 32,
    }
}

fn format() -> (r: SharedExponentFormat)
    ensures
        r == xyz13e6_format(),
        r.layout_wf(),
        r.unit_ok(149),
{
    proof {
        lemma2_to64();
    }
    SharedExponentFormat {
        exponent_bits: 6,
        mantissa_bits: 13,
        max_valid_biased_exp: 63,
        exp_bias: 31,
        mantissa_values: 8192,
        max_mantissa: 8191,
        max_exp: 32,
    }
}

/// The largest encodable magnitude, in units of `2^-149`.
pub open spec fn xyz13e6_top() -> nat {
    xyz13e6_format().top_units(149)
}

/// The magnitude a channel is encoded from: NaN gives zero, and everything
/// is limited to the largest encodable magnitude.
pub open spec fn xyz13e6_clamped(b: u32) -> nat {
    clamp_units(f32_channel_units(b, true, xyz13e6_top()), xyz13e6_top())
}

/// Shared exponent and mantissas of an encoded vector.
pub open spec fn xyz13e6_encoding(xyz: [u32; 3]) -> (int, nat, nat, nat) {
    xyz13e6_format().encoding(
        f32_channel_units(xyz[0], true, xyz13e6_top()),
        f32_channel_units(xyz[1], true, xyz13e6_top()),
        f32_channel_units(xyz[2], true, xyz13e6_top()),
        xyz13e6_top(),
        149,
    )
}

/// The magnitude of channel `i` (0 x, 1 y, 2 z) of an encoded vector, in
/// units of `2^-149`.
pub open spec fn xyz13e6_units(v: (u32, u16), i: int) -> nat {
    xyz13e6_mantissa(v, i) as nat * pow2(
        xyz13e6_format().step_shift(xyz13e6_exponent(v) as int, 149) as nat,
    )
}

/// Word A: exponent in bits 31..26, y and x mantissas below it. Word B: the
/// z, y and x sign bits in bits 15..13, the z mantissa below them.
pub open spec fn xyz13e6_pack(e: u32, x: u32, y: u32, z: u16, xs: u16, ys: u16, zs: u16) -> (u32, u16) {
    ((e << 26u32) | (y << 13u32) | x, (zs << 15u16) | (ys << 14u16) | (xs << 13u16) | z)
}

pub open spec fn xyz13e6_word(xyz: [u32; 3]) -> (u32, u16) {
    let (e, x, y, z) = xyz13e6_encoding(xyz);
    xyz13e6_pack(
        e as u32,
        x as u32,
        y as u32,
        z as u16,
        (xyz[0] >> 31u32) as u16,
        (xyz[1] >> 31u32) as u16,
        (xyz[2] >> 31u32) as u16,
    )
}

pub open spec fn xyz13e6_exponent(v: (u32, u16)) -> u32 {
    (v.0 >> 26u32) & 0x3fu32
}

pub open spec fn xyz13e6_mantissa(v: (u32, u16), i: int) -> u32 {
    if i == 0 {
        v.0 & 0x1fffu32
    } else if i == 1 {
        (v.0 >> 13u32) & 0x1fffu32
    } else {
        (v.1 & 0x1fffu16) as u32
    }
}

pub open spec fn xyz13e6_negative(v: (u32, u16), i: int) -> bool {
    (v.1 >> (13 + i) as u16) & 1u16 == 1u16
}

/// Encodes three `f32` channels, given as bit patterns.
pub fn vec3_to_xyz13e6(xyz: [u32; 3]) -> (r: (u32, u16))
    ensures
        r == xyz13e6_word(xyz),
{
    let f = format();
    let top = f.top(149);
    let c = [
        f32_channel(xyz[0], true, top),
        f32_channel(xyz[1], true, top),
        f32_channel(xyz[2], true, top),
    ];
    let (m, e) = f.encode_magnitudes(c, top, 149);
    let xsign: u16 = (xyz[0] >> 31u32) as u16;
    let ysign: u16 = (xyz[1] >> 31u32) as u16;
    let zsign: u16 = (xyz[2] >> 31u32) as u16;
    let out_a: u32 = (e << 26u32) | (m[1] << 13u32) | m[0];
    let out_b: u16 = (zsign << 15u16) | (ysign << 14u16) | (xsign << 13u16) | (m[2] as u16);
    (out_a, out_b)
}

/// Decodes to three `f32` bit patterns.
pub fn xyz13e6_to_vec3(v: (u32, u16)) -> (r: [u32; 3])
    ensures
        forall|i: int|
            0 <= i < 3 ==> f32_sign(#[trigger] r[i]) == xyz13e6_negative(v, i) && f32_is_finite(r[i])
                && f32_units(r[i]) == xyz13e6_units(v, i),
{
    let f = format();
    let e = bitfield_extract(v.0, 26, 6);
    let xb = bitfield_extract(v.0, 0, 13);
    let yb = bitfield_extract(v.0, 13, 13);
    let zb = bitfield_extract_u16(v.1, 0, 13) as u32;
    let xs = bitfield_extract_u16(v.1, 13, 1);
    let ys = bitfield_extract_u16(v.1, 14, 1);
    let zs = bitfield_extract_u16(v.1, 15, 1);
    proof {
        lemma_masks(v.0, v.1);
    }
    [
        f.mantissa_to_f32(xs == 1, xb, e),
        f.mantissa_to_f32(ys == 1, yb, e),
        f.mantissa_to_f32(zs == 1, zb, e),
    ]
}

proof fn lemma_masks(a: u32, b: u16)
    by (bit_vector)
    ensures
        (a >> 26u32) & vstd::prelude::sub(1u32 << 6u32, 1u32) == (a >> 26u32) & 0x3fu32,
        (a >> 26u32) & 0x3fu32 <= 63,
        (a >> 0u32) & vstd::prelude::sub(1u32 << 13u32, 1u32) == a & 0x1fffu32,
        (a >> 13u32) & vstd::prelude::sub(1u32 << 13u32, 1u32) == (a >> 13u32) & 0x1fffu32,
        a & 0x1fffu32 <= 8191,
        (a >> 13u32) & 0x1fffu32 <= 8191,
        (b >> 0u16) & vstd::prelude::sub(1u16 << 13u16, 1u16) == b & 0x1fffu16,
        b & 0x1fffu16 <= 8191,
        (b >> 13u16) & vstd::prelude::sub(1u16 << 1u16, 1u16) == (b >> 13u16) & 1u16,
        (b >> 14u16) & vstd::prelude::sub(1u16 << 1u16, 1u16) == (b >> 14u16) & 1u16,
        (b >> 15u16) & vstd::prelude::sub(1u16 << 1u16, 1u16) == (b >> 15u16) & 1u16,
{
}

proof fn lemma_fields_a(e: u32, x: u32, y: u32)
    by (bit_vector)
    requires
        e <= 63,
        x <= 8191,
        y <= 8191,
    ensures
        (((e << 26u32) | (y << 13u32) | x) >> 26u32) & 0x3fu32 == e,
        ((e << 26u32) | (y << 13u32) | x) & 0x1fffu32 == x,
        (((e << 26u32) | (y << 13u32) | x) >> 13u32) & 0x1fffu32 == y,
{
}

proof fn lemma_fields_b(z: u16, xs: u16, ys: u16, zs: u16)
    by (bit_vector)
    requires
        z <= 8191,
        xs <= 1,
        ys <= 1,
        zs <= 1,
    ensures
        ((zs << 15u16) | (ys << 14u16) | (xs << 13u16) | z) & 0x1fffu16 == z,
        (((zs << 15u16) | (ys << 14u16) | (xs << 13u16) | z) >> 13u16) & 1u16 == xs,
        (((zs << 15u16) | (ys << 14u16) | (xs << 13u16) | z) >> 14u16) & 1u16 == ys,
        (((zs << 15u16) | (ys << 14u16) | (xs << 13u16) | z) >> 15u16) & 1u16 == zs,
{
}

proof fn lemma_sign_bit(b: u32)
    by (bit_vector)
    ensures
        b >> 31u32 <= 1,
{
}

/// Decoding an encoded vector keeps each channel's sign and gives back its
/// magnitude, limited to the largest encodable one, within half a mantissa
/// step at the shared exponent.
pub proof fn lemma_xyz13e6_round_trip(xyz: [u32; 3])
    ensures
        forall|i: int|
            0 <= i < 3 ==> {
                let w = xyz13e6_word(xyz);
                let p = pow2(xyz13e6_format().step_shift(xyz13e6_exponent(w) as int, 149) as nat);
                &&& xyz13e6_negative(w, i) == f32_sign(xyz[i])
                &&& xyz13e6_clamped(xyz[i]) <= #[trigger] xyz13e6_units(xyz13e6_word(xyz), i) + p / 2
                &&& xyz13e6_units(w, i) <= xyz13e6_clamped(xyz[i]) + p / 2
            },
{
    let f = xyz13e6_format();
    lemma2_to64();
    assert(f.layout_wf());
    let top = xyz13e6_top();
    let (e, x, y, z) = xyz13e6_encoding(xyz);
    lemma_encoding_error(
        f,
        f32_channel_units(xyz[0], true, top),
        f32_channel_units(xyz[1], true, top),
        f32_channel_units(xyz[2], true, top),
        top,
        149,
    );
    lemma_sign_bit(xyz[0]);
    lemma_sign_bit(xyz[1]);
    lemma_sign_bit(xyz[2]);
    lemma_fields_a(e as u32, x as u32, y as u32);
    lemma_fields_b(
        z as u16,
        (xyz[0] >> 31u32) as u16,
        (xyz[1] >> 31u32) as u16,
        (xyz[2] >> 31u32) as u16,
    );
}

/// The encoded word holds the shared exponent and each channel's mantissa
/// and sign.
proof fn lemma_xyz13e6_word(xyz: [u32; 3])
    ensures
        ({
            let (e, m0, m1, m2) = xyz13e6_encoding(xyz);
            let w = xyz13e6_word(xyz);
            let p = pow2(xyz13e6_format().step_shift(e, 149) as nat);
            &&& xyz13e6_exponent(w) == e
            &&& xyz13e6_units(w, 0) == m0 * p
            &&& xyz13e6_units(w, 1) == m1 * p
            &&& xyz13e6_units(w, 2) == m2 * p
            &&& xyz13e6_negative(w, 0) == f32_sign(xyz[0])
            &&& xyz13e6_negative(w, 1) == f32_sign(xyz[1])
            &&& xyz13e6_negative(w, 2) == f32_sign(xyz[2])
        }),
{
    let f = xyz13e6_format();
    lemma2_to64();
    assert(f.layout_wf());
    let top = xyz13e6_top();
    let (e, x, y, z) = xyz13e6_encoding(xyz);
    lemma_encoding_error(
        f,
        f32_channel_units(xyz[0], true, top),
        f32_channel_units(xyz[1], true, top),
        f32_channel_units(xyz[2], true, top),
        top,
        149,
    );
    lemma_sign_bit(xyz[0]);
    lemma_sign_bit(xyz[1]);
    lemma_sign_bit(xyz[2]);
    lemma_fields_a(e as u32, x as u32, y as u32);
    lemma_fields_b(
        z as u16,
        (xyz[0] >> 31u32) as u16,
        (xyz[1] >> 31u32) as u16,
        (xyz[2] >> 31u32) as u16,
    );
}

/// NaN channels decode to zero.
pub proof fn lemma_xyz13e6_nan_is_zero(xyz: [u32; 3])
    requires
        f32_is_nan(xyz[0]),
        f32_is_nan(xyz[1]),
        f32_is_nan(xyz[2]),
    ensures
        xyz13e6_units(xyz13e6_word(xyz), 0) == 0,
        xyz13e6_units(xyz13e6_word(xyz), 1) == 0,
        xyz13e6_units(xyz13e6_word(xyz), 2) == 0,
{
    lemma2_to64();
    assert(xyz13e6_format().layout_wf());
    lemma_xyz13e6_word(xyz);
    lemma_encoding_zero(xyz13e6_format(), xyz13e6_top(), 149);
    assert(f32_channel_units(xyz[0], true, xyz13e6_top()) == 0);
    assert(f32_channel_units(xyz[1], true, xyz13e6_top()) == 0);
    assert(f32_channel_units(xyz[2], true, xyz13e6_top()) == 0);
    assert(xyz13e6_encoding(xyz) == (0int, 0nat, 0nat, 0nat));
    vstd::arithmetic::mul::lemma_mul_by_zero_is_zero(
        pow2(xyz13e6_format().step_shift(0, 149) as nat) as int,
    );
}

/// Saturation: infinite channels decode to the largest encodable magnitude,
/// each keeping its sign.
pub proof fn lemma_xyz13e6_infinity_saturates(xyz: [u32; 3])
    requires
        f32_is_inf(xyz[0]),
        f32_is_inf(xyz[1]),
        f32_is_inf(xyz[2]),
    ensures
        xyz13e6_units(xyz13e6_word(xyz), 0) == xyz13e6_top(),
        xyz13e6_units(xyz13e6_word(xyz), 1) == xyz13e6_top(),
        xyz13e6_units(xyz13e6_word(xyz), 2) == xyz13e6_top(),
{
    lemma2_to64();
    assert(xyz13e6_format().layout_wf());
    lemma_xyz13e6_word(xyz);
    lemma_encoding_top(xyz13e6_format(), 149);
}

/// Exact representables: ones come back exactly (`2^149` units).
pub proof fn lemma_xyz13e6_one_is_exact(xyz: [u32; 3])
    requires
        xyz[0] == 0x3f80_0000,
        xyz[1] == 0x3f80_0000,
        xyz[2] == 0x3f80_0000,
    ensures
        xyz13e6_units(xyz13e6_word(xyz), 0) == pow2(149),
        xyz13e6_units(xyz13e6_word(xyz), 1) == pow2(149),
        xyz13e6_units(xyz13e6_word(xyz), 2) == pow2(149),
        !xyz13e6_negative(xyz13e6_word(xyz), 0),
        !xyz13e6_negative(xyz13e6_word(xyz), 1),
        !xyz13e6_negative(xyz13e6_word(xyz), 2),
{
    lemma2_to64();
    assert(xyz13e6_format().layout_wf());
    lemma_f32_one();
    lemma_xyz13e6_word(xyz);
    lemma_one_in_range(xyz13e6_format(), 149);
    lemma_encoding_one(xyz13e6_format(), xyz13e6_top(), 149);
}

} // verus!
