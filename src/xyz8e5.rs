//! `xyz8e5`: a signed 4-byte format, 5 exponent bits and three 8-bit
//! mantissas, each with a sign bit beside it.
use crate::bitfield_extract;
use crate::custom_shared_format::{
    clamp_units, f32_channel, f32_channel_units, lemma_encoding_error, lemma_encoding_one,
    lemma_encoding_top, lemma_encoding_zero, lemma_one_in_range, SharedExponentFormat,
};
use crate::ieee::{f32_is_finite, f32_is_inf, f32_is_nan, f32_sign, f32_units, lemma_f32_one};
use vstd::arithmetic::power2::*;
use vstd::prelude::*;

verus! {

pub const NAME: &'static str = "xyz8e5";

pub const BYTES: u8 = 4;

pub const SIGNED: bool = true;

pub const XYZ8E5_EXPONENT_BITS: i32 = 5;

pub const XYZ8E5_MANTISSA_BITS: i32 = 8;

pub const XYZ8E5_MANTISSA_BITSU: u32 = 8;

pub const XYZ8E5_EXP_BIAS: i32 = 15;

pub const XYZ8E5_MAX_VALID_BIASED_EXP: i32 = 31;

pub const MAX_XYZ8E5_EXP: i32 = XYZ8E5_MAX_VALID_BIASED_EXP - XYZ8E5_EXP_BIAS;

pub const XYZ8E5_MANTISSA_VALUES: i32 = 256;

pub const MAX_XYZ8E5_MANTISSA: i32 = XYZ8E5_MANTISSA_VALUES - 1;

pub const MAX_XYZ8E5_MANTISSAU: u32 = 255;

pub open spec fn xyz8e5_format() -> SharedExponentFormat {
    SharedExponentFormat {
        exponent_bits: 5,
        mantissa_bits: 8,
        max_valid_biased_exp: 31,
        exp_bias: 15,
        mantissa_values: 256,
        max_mantissa: 255,
        max_exp: 16,
    }
}

fn format() -> (r: SharedExponentFormat)
    ensures
        r == xyz8e5_format(),
        r.layout_wf(),
        r.unit_ok(149),
{
    proof {
        lemma2_to64();
    }
    SharedExponentFormat {
        exponent_bits: 5,
        mantissa_bits: 8,
        max_valid_biased_exp: 31,
        exp_bias: 15,
        mantissa_values: 256,
        max_mantissa: 255,
        max_exp: 16,
    }
}

/// The largest encodable magnitude, in units of `2^-149`.
pub open spec fn xyz8e5_top() -> nat {
    xyz8e5_format().top_units(149)
}

/// The magnitude a channel is encoded from: NaN gives zero, and everything
/// is limited to the largest encodable magnitude.
pub open spec fn xyz8e5_clamped(b: u32) -> nat {
    clamp_units(f32_channel_units(b, true, xyz8e5_top()), xyz8e5_top())
}

/// Shared exponent and mantissas of an encoded vector.
pub open spec fn xyz8e5_encoding(xyz: [u32; 3]) -> (int, nat, nat, nat) {
    xyz8e5_format().encoding(
        f32_channel_units(xyz[0], true, xyz8e5_top()),
        f32_channel_units(xyz[1], true, xyz8e5_top()),
        f32_channel_units(xyz[2], true, xyz8e5_top()),
        xyz8e5_top(),
        149,
    )
}

/// Bits 31..27 hold the exponent; below it three 9-bit fields for z,
/// y and x, each a 8-bit mantissa with its sign bit on top.
pub open spec fn xyz8e5_pack(e: u32, x: u32, y: u32, z: u32, xs: u32, ys: u32, zs: u32) -> u32 {
    (e << 27u32) | ((z | (zs << 8u32)) << 18u32) | ((y | (ys << 8u32)) << 9u32) | (x | (xs
        << 8u32))
}

pub open spec fn xyz8e5_word(xyz: [u32; 3]) -> u32 {
    let (e, x, y, z) = xyz8e5_encoding(xyz);
    xyz8e5_pack(
        e as u32,
        x as u32,
        y as u32,
        z as u32,
        xyz[0] >> 31u32,
        xyz[1] >> 31u32,
        xyz[2] >> 31u32,
    )
}

pub open spec fn xyz8e5_exponent(v: u32) -> u32 {
    (v >> 27u32) & 0x1fu32
}

/// The sign-and-mantissa field of channel `i` (0 x, 1 y, 2 z).
pub open spec fn xyz8e5_field(v: u32, i: int) -> u32 {
    if i == 0 {
        v & 0x1ffu32
    } else if i == 1 {
        (v >> 9u32) & 0x1ffu32
    } else {
        (v >> 18u32) & 0x1ffu32
    }
}

pub open spec fn xyz8e5_negative(v: u32, i: int) -> bool {
    xyz8e5_field(v, i) & 0x100u32 != 0
}

/// The magnitude of channel `i` of an encoded vector, in units of `2^-149`.
pub open spec fn xyz8e5_units(v: u32, i: int) -> nat {
    (xyz8e5_field(v, i) & 0xffu32) as nat * pow2(
        xyz8e5_format().step_shift(xyz8e5_exponent(v) as int, 149) as nat,
    )
}

/// Encodes three `f32` channels, given as bit patterns.
pub fn vec3_to_xyz8e5(xyz: [u32; 3]) -> (r: u32)
    ensures
        r == xyz8e5_word(xyz),
{
    let f = format();
    let top = f.top(149);
    let c = [
        f32_channel(xyz[0], true, top),
        f32_channel(xyz[1], true, top),
        f32_channel(xyz[2], true, top),
    ];
    let (m, e) = f.encode_magnitudes(c, top, 149);
    let xm = m[0] | ((xyz[0] >> 31u32) << 8u32);
    let ym = m[1] | ((xyz[1] >> 31u32) << 8u32);
    let zm = m[2] | ((xyz[2] >> 31u32) << 8u32);
    (e << 27u32) | (zm << 18u32) | (ym << 9u32) | xm
}

fn channel(f: &SharedExponentFormat, field: u32, e: u32) -> (r: u32)
    requires
        *f == xyz8e5_format(),
        f.layout_wf(),
        field <= 0x1ff,
        e <= 31,
    ensures
        f32_sign(r) == (field & 0x100u32 != 0),
        f32_is_finite(r),
        f32_units(r) == (field & 0xffu32) as nat * pow2(f.step_shift(e as int, 149) as nat),
{
    assert(field & 0xffu32 <= 255) by (bit_vector);
    f.mantissa_to_f32(field & 0x100u32 != 0, field & 0xffu32, e)
}

/// Decodes to three `f32` bit patterns.
pub fn xyz8e5_to_vec3(v: u32) -> (r: [u32; 3])
    ensures
        forall|i: int|
            0 <= i < 3 ==> f32_sign(#[trigger] r[i]) == xyz8e5_negative(v, i) && f32_is_finite(r[i])
                && f32_units(r[i]) == xyz8e5_units(v, i),
{
    let f = format();
    let e = bitfield_extract(v, 27, 5);
    let xb = bitfield_extract(v, 0, 9);
    let yb = bitfield_extract(v, 9, 9);
    let zb = bitfield_extract(v, 18, 9);
    proof {
        lemma_masks(v);
    }
    [channel(&f, xb, e), channel(&f, yb, e), channel(&f, zb, e)]
}

proof fn lemma_masks(v: u32)
    by (bit_vector)
    ensures
        (v >> 27u32) & vstd::prelude::sub(1u32 << 5u32, 1u32) == (v >> 27u32) & 0x1fu32,
        (v >> 27u32) & 0x1fu32 <= 31,
        (v >> 0u32) & vstd::prelude::sub(1u32 << 9u32, 1u32) == v & 0x1ffu32,
        (v >> 9u32) & vstd::prelude::sub(1u32 << 9u32, 1u32) == (v >> 9u32) & 0x1ffu32,
        (v >> 18u32) & vstd::prelude::sub(1u32 << 9u32, 1u32) == (v >> 18u32) & 0x1ffu32,
        v & 0x1ffu32 <= 0x1ff,
        (v >> 9u32) & 0x1ffu32 <= 0x1ff,
        (v >> 18u32) & 0x1ffu32 <= 0x1ff,
{
}

proof fn lemma_fields(e: u32, x: u32, y: u32, z: u32, xs: u32, ys: u32, zs: u32)
    by (bit_vector)
    requires
        e <= 31,
        x <= 255,
        y <= 255,
        z <= 255,
        xs <= 1,
        ys <= 1,
        zs <= 1,
    ensures
        ((((e << 27u32) | ((z | (zs << 8u32)) << 18u32) | ((y | (ys << 8u32)) << 9u32) | (x | (xs
            << 8u32))) >> 27u32) & 0x1fu32) == e,
        (((e << 27u32) | ((z | (zs << 8u32)) << 18u32) | ((y | (ys << 8u32)) << 9u32) | (x | (xs
            << 8u32))) & 0x1ffu32) & 0xffu32 == x,
        ((((e << 27u32) | ((z | (zs << 8u32)) << 18u32) | ((y | (ys << 8u32)) << 9u32) | (x | (xs
            << 8u32))) >> 9u32) & 0x1ffu32) & 0xffu32 == y,
        ((((e << 27u32) | ((z | (zs << 8u32)) << 18u32) | ((y | (ys << 8u32)) << 9u32) | (x | (xs
            << 8u32))) >> 18u32) & 0x1ffu32) & 0xffu32 == z,
        ((((e << 27u32) | ((z | (zs << 8u32)) << 18u32) | ((y | (ys << 8u32)) << 9u32) | (x | (xs
            << 8u32))) & 0x1ffu32) & 0x100u32 != 0) == (xs == 1),
        ((((e << 27u32) | ((z | (zs << 8u32)) << 18u32) | ((y | (ys << 8u32)) << 9u32) | (x | (xs
            << 8u32))) >> 9u32) & 0x1ffu32) & 0x100u32 != 0 == (ys == 1),
        ((((e << 27u32) | ((z | (zs << 8u32)) << 18u32) | ((y | (ys << 8u32)) << 9u32) | (x | (xs
            << 8u32))) >> 18u32) & 0x1ffu32) & 0x100u32 != 0 == (zs == 1),
{
}

proof fn lemma_sign_bit(b: u32)
    by (bit_vector)
    ensures
        b >> 31u32 <= 1,
{
}

/// Decoding an encoded vector keeps each channel's sign and gives back its
/// magnitude, limited to the largest encodable one, within half a mantissa
/// step at the shared exponent.
pub proof fn lemma_xyz8e5_round_trip(xyz: [u32; 3])
    ensures
        forall|i: int|
            0 <= i < 3 ==> {
                let w = xyz8e5_word(xyz);
                let p = pow2(xyz8e5_format().step_shift(xyz8e5_exponent(w) as int, 149) as nat);
                &&& xyz8e5_negative(w, i) == f32_sign(xyz[i])
                &&& xyz8e5_clamped(xyz[i]) <= #[trigger] xyz8e5_units(xyz8e5_word(xyz), i) + p / 2
                &&& xyz8e5_units(w, i) <= xyz8e5_clamped(xyz[i]) + p / 2
            },
{
    let f = xyz8e5_format();
    lemma2_to64();
    assert(f.layout_wf());
    let top = xyz8e5_top();
    let (e, x, y, z) = xyz8e5_encoding(xyz);
    lemma_encoding_error(
        f,
        f32_channel_units(xyz[0], true, top),
        f32_channel_units(xyz[1], true, top),
        f32_channel_units(xyz[2], true, top),
        top,
        149,
    );
    lemma_sign_bit(xyz[0]);
    lemma_sign_bit(xyz[1]);
    lemma_sign_bit(xyz[2]);
    lemma_fields(
        e as u32,
        x as u32,
        y as u32,
        z as u32,
        xyz[0] >> 31u32,
        xyz[1] >> 31u32,
        xyz[2] >> 31u32,
    );
}

/// The encoded word holds the shared exponent and each channel's mantissa
/// and sign.
proof fn lemma_xyz8e5_word(xyz: [u32; 3])
    ensures
        ({
            let (e, m0, m1, m2) = xyz8e5_encoding(xyz);
            let w = xyz8e5_word(xyz);
            let p = pow2(xyz8e5_format().step_shift(e, 149) as nat);
            &&& xyz8e5_exponent(w) == e
            &&& xyz8e5_units(w, 0) == m0 * p
            &&& xyz8e5_units(w, 1) == m1 * p
            &&& xyz8e5_units(w, 2) == m2 * p
            &&& xyz8e5_negative(w, 0) == f32_sign(xyz[0])
            &&& xyz8e5_negative(w, 1) == f32_sign(xyz[1])
            &&& xyz8e5_negative(w, 2) == f32_sign(xyz[2])
        }),
{
    let f = xyz8e5_format();
    lemma2_to64();
    assert(f.layout_wf());
    let top = xyz8e5_top();
    let (e, x, y, z) = xyz8e5_encoding(xyz);
    lemma_encoding_error(
        f,
        f32_channel_units(xyz[0], true, top),
        f32_channel_units(xyz[1], true, top),
        f32_channel_units(xyz[2], true, top),
        top,
        149,
    );
    lemma_sign_bit(xyz[0]);
    lemma_sign_bit(xyz[1]);
    lemma_sign_bit(xyz[2]);
    lemma_fields(
        e as u32,
        x as u32,
        y as u32,
        z as u32,
        xyz[0] >> 31u32,
        xyz[1] >> 31u32,
        xyz[2] >> 31u32,
    );
}

/// NaN channels decode to zero.
pub proof fn lemma_xyz8e5_nan_is_zero(xyz: [u32; 3])
    requires
        f32_is_nan(xyz[0]),
        f32_is_nan(xyz[1]),
        f32_is_nan(xyz[2]),
    ensures
        xyz8e5_units(xyz8e5_word(xyz), 0) == 0,
        xyz8e5_units(xyz8e5_word(xyz), 1) == 0,
        xyz8e5_units(xyz8e5_word(xyz), 2) == 0,
{
    lemma2_to64();
    assert(xyz8e5_format().layout_wf());
    lemma_xyz8e5_word(xyz);
    lemma_encoding_zero(xyz8e5_format(), xyz8e5_top(), 149);
    assert(f32_channel_units(xyz[0], true, xyz8e5_top()) == 0);
    assert(f32_channel_units(xyz[1], true, xyz8e5_top()) == 0);
    assert(f32_channel_units(xyz[2], true, xyz8e5_top()) == 0);
    assert(xyz8e5_encoding(xyz) == (0int, 0nat, 0nat, 0nat));
    vstd::arithmetic::mul::lemma_mul_by_zero_is_zero(
        pow2(xyz8e5_format().step_shift(0, 149) as nat) as int,
    );
}

/// Saturation: infinite channels decode to the largest encodable magnitude,
/// each keeping its sign.
pub proof fn lemma_xyz8e5_infinity_saturates(xyz: [u32; 3])
    requires
        f32_is_inf(xyz[0]),
        f32_is_inf(xyz[1]),
        f32_is_inf(xyz[2]),
    ensures
        xyz8e5_units(xyz8e5_word(xyz), 0) == xyz8e5_top(),
        xyz8e5_units(xyz8e5_word(xyz), 1) == xyz8e5_top(),
        xyz8e5_units(xyz8e5_word(xyz), 2) == xyz8e5_top(),
{
    lemma2_to64();
    assert(xyz8e5_format().layout_wf());
    lemma_xyz8e5_word(xyz);
    lemma_encoding_top(xyz8e5_format(), 149);
}

/// Exact representables: ones come back exactly (`2^149` units).
pub proof fn lemma_xyz8e5_one_is_exact(xyz: [u32; 3])
    requires
        xyz[0] == 0x3f80_0000,
        xyz[1] == 0x3f80_0000,
        xyz[2] == 0x3f80_0000,
    ensures
        xyz8e5_units(xyz8e5_word(xyz), 0) == pow2(149),
        xyz8e5_units(xyz8e5_word(xyz), 1) == pow2(149),
        xyz8e5_units(xyz8e5_word(xyz), 2) == pow2(149),
        !xyz8e5_negative(xyz8e5_word(xyz), 0),
        !xyz8e5_negative(xyz8e5_word(xyz), 1),
        !xyz8e5_negative(xyz8e5_word(xyz), 2),
{
    lemma2_to64();
    assert(xyz8e5_format().layout_wf());
    lemma_f32_one();
    lemma_xyz8e5_word(xyz);
    lemma_one_in_range(xyz8e5_format(), 149);
    lemma_encoding_one(xyz8e5_format(), xyz8e5_top(), 149);
}

} // verus!
