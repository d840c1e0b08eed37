//! `xyz18e7` with `f64` channels: the same 8-byte layout, encoded from and
//! decoded to double precision.
use crate::custom_shared_format::{
    clamp_units, f64_channel, f64_channel_units, lemma_encoding_error, lemma_encoding_one,
    lemma_encoding_top, lemma_encoding_zero, lemma_one_in_range, SharedExponentFormat,
};
use crate::ieee::{f64_is_finite, f64_is_inf, f64_is_nan, f64_sign, f64_units, lemma_f64_one};
use crate::bitfield_extract;
use vstd::arithmetic::power2::*;
use vstd::prelude::*;

verus! {

pub const NAME: &'static str = "xyz18e7";

pub const BYTES: u8 = 8;

pub const SIGNED: bool = true;

pub const XYZ18E7_EXPONENT_BITS: i32 = 7;

pub const XYZ18E7_MANTISSA_BITS: i32 = 18;

pub const XYZ18E7_MANTISSA_BITSU: u32 = 18;

pub const XYZ18E7_EXP_BIAS: i32 = 63;

pub const XYZ18E7_MAX_VALID_BIASED_EXP: i32 = 127;

pub const MAX_XYZ18E7_EXP: u64 = 64;

pub const XYZ18E7_MANTISSA_VALUES: i32 = 262144;

pub const MAX_XYZ18E7_MANTISSA: i32 = XYZ18E7_MANTISSA_VALUES - 1;

pub const MAX_XYZ18E7_MANTISSAU: u32 = 262143;

pub open spec fn xyz18e7_f64_format() -> SharedExponentFormat {
    SharedExponentFormat {
        exponent_bits: 7,
        mantissa_bits: 18,
        max_valid_biased_exp: 127,
        exp_bias: 63,
        mantissa_values: 262144,
        max_mantissa: 262143,
        max_exp: 64,
    }
}

fn format() -> (r: SharedExponentFormat)
    ensures
        r == xyz18e7_f64_format(),
        r.layout_wf(),
        r.unit_ok(1074),
{
    proof {
        lemma2_to64();
    }
    SharedExponentFormat {
        exponent_bits: 7,
        mantissa_bits: 18,
        max_valid_biased_exp: 127,
        exp_bias: 63,
        mantissa_values: 262144,
        max_mantissa: 262143,
        max_exp: 64,
    }
}

/// The largest encodable magnitude, in units of `2^-1074`.
pub open spec fn xyz18e7_f64_top() -> nat {
    xyz18e7_f64_format().top_units(1074)
}

/// The magnitude a channel is encoded from: NaN gives zero, and everything
/// is limited to the largest encodable magnitude.
pub open spec fn xyz18e7_f64_clamped(b: u64) -> nat {
    clamp_units(f64_channel_units(b, true, xyz18e7_f64_top()), xyz18e7_f64_top())
}

/// Shared exponent and mantissas of an encoded vector.
pub open spec fn xyz18e7_f64_encoding(xyz: [u64; 3]) -> (int, nat, nat, nat) {
    xyz18e7_f64_format().encoding(
        f64_channel_units(xyz[0], true, xyz18e7_f64_top()),
        f64_channel_units(xyz[1], true, xyz18e7_f64_top()),
        f64_channel_units(xyz[2], true, xyz18e7_f64_top()),
        xyz18e7_f64_top(),
        1074,
    )
}

/// The magnitude of channel `i` (0 x, 1 y, 2 z) of an encoded vector, in
/// units of `2^-1074`.
pub open spec fn xyz18e7_f64_units(v: (u32, u32), i: int) -> nat {
    xyz18e7_f64_mantissa(v, i) as nat * pow2(
        xyz18e7_f64_format().step_shift(xyz18e7_f64_exponent(v) as int, 1074) as nat,
    )
}

/// Word A: the low 14 bits of the y mantissa above the x mantissa. Word B:
/// exponent in bits 31..25, the z, y and x sign bits in bits 24..22, the z
/// mantissa, and the high 4 bits of the y mantissa in bits 3..0.
pub open spec fn xyz18e7_f64_pack(e: u32, x: u32, y: u32, z: u32, xs: u32, ys: u32, zs: u32) -> (u32, u32) {
    (
        (y << 18u32) | x,
        (e << 25u32) | (zs << 24u32) | (ys << 23u32) | (xs << 22u32) | (z << 4u32) | (y >> 14u32),
    )
}

pub open spec fn xyz18e7_f64_word(xyz: [u64; 3]) -> (u32, u32) {
    let (e, x, y, z) = xyz18e7_f64_encoding(xyz);
    xyz18e7_f64_pack(e as u32, x as u32, y as u32, z as u32, (xyz[0] >> 63u64) as u32, (xyz[1] >> 63u64) as u32, (xyz[2] >> 63u64) as u32)
}

pub open spec fn xyz18e7_f64_exponent(v: (u32, u32)) -> u32 {
    (v.1 >> 25u32) & 0x7fu32
}

pub open spec fn xyz18e7_f64_mantissa(v: (u32, u32), i: int) -> u32 {
    if i == 0 {
        v.0 & 0x3ffffu32
    } else if i == 1 {
        ((v.0 >> 18u32) & 0x3ffffu32) | ((v.1 & 0xfu32) << 14u32)
    } else {
        (v.1 >> 4u32) & 0x3ffffu32
    }
}

pub open spec fn xyz18e7_f64_negative(v: (u32, u32), i: int) -> bool {
    (v.1 >> (22 + i) as u32) & 1u32 == 1u32
}

/// Encodes three `f64` channels, given as bit patterns.
pub fn vec3_to_xyz18e7(xyz: [u64; 3]) -> (r: (u32, u32))
    ensures
        r == xyz18e7_f64_word(xyz),
{
    let f = format();
    let top = f.top(1074);
    let c = [
        f64_channel(xyz[0], true, top),
        f64_channel(xyz[1], true, top),
        f64_channel(xyz[2], true, top),
    ];
    let (m, e) = f.encode_magnitudes(c, top, 1074);
    let xsign: u32 = (xyz[0] >> 63u64) as u32;
    let ysign: u32 = (xyz[1] >> 63u64) as u32;
    let zsign: u32 = (xyz[2] >> 63u64) as u32;
    let out_a: u32 = (m[1] << 18u32) | m[0];
    let out_b: u32 = (e << 25u32) | (zsign << 24u32) | (ysign << 23u32) | (xsign << 22u32) | (m[2]
        << 4u32) | (m[1] >> 14u32);
    (out_a, out_b)
}

/// Decodes to three `f64` bit patterns.
pub fn xyz18e7_to_vec3(v: (u32, u32)) -> (r: [u64; 3])
    ensures
        forall|i: int|
            0 <= i < 3 ==> f64_sign(#[trigger] r[i]) == xyz18e7_f64_negative(v, i) && f64_is_finite(r[i])
                && f64_units(r[i]) == xyz18e7_f64_units(v, i),
{
    let f = format();
    let e = bitfield_extract(v.1, 25, 7);
    let xb = bitfield_extract(v.0, 0, 18);
    let yb = bitfield_extract(v.0, 18, 18) | (bitfield_extract(v.1, 0, 4) << 14u32);
    let zb = bitfield_extract(v.1, 4, 18);
    let xs = bitfield_extract(v.1, 22, 1);
    let ys = bitfield_extract(v.1, 23, 1);
    let zs = bitfield_extract(v.1, 24, 1);
    proof {
        lemma_masks(v.0, v.1);
    }
    [f.mantissa_to_f64(xs == 1, xb, e), f.mantissa_to_f64(ys == 1, yb, e), f.mantissa_to_f64(zs == 1, zb, e)]
}

proof fn lemma_masks(a: u32, b: u32)
    by (bit_vector)
    ensures
        (b >> 25u32) & vstd::prelude::sub(1u32 << 7u32, 1u32) == (b >> 25u32) & 0x7fu32,
        (b >> 25u32) & 0x7fu32 <= 127,
        (a >> 0u32) & vstd::prelude::sub(1u32 << 18u32, 1u32) == a & 0x3ffffu32,
        a & 0x3ffffu32 <= 262143,
        ((a >> 18u32) & vstd::prelude::sub(1u32 << 18u32, 1u32)) | (((b >> 0u32) & vstd::prelude::sub(
            1u32 << 4u32,
            1u32,
        )) << 14u32) == ((a >> 18u32) & 0x3ffffu32) | ((b & 0xfu32) << 14u32),
        ((a >> 18u32) & 0x3ffffu32) | ((b & 0xfu32) << 14u32) <= 262143,
        (b >> 4u32) & vstd::prelude::sub(1u32 << 18u32, 1u32) == (b >> 4u32) & 0x3ffffu32,
        (b >> 4u32) & 0x3ffffu32 <= 262143,
        (b >> 22u32) & vstd::prelude::sub(1u32 << 1u32, 1u32) == (b >> 22u32) & 1u32,
        (b >> 23u32) & vstd::prelude::sub(1u32 << 1u32, 1u32) == (b >> 23u32) & 1u32,
        (b >> 24u32) & vstd::prelude::sub(1u32 << 1u32, 1u32) == (b >> 24u32) & 1u32,
{
}

proof fn lemma_fields(e: u32, x: u32, y: u32, z: u32, xs: u32, ys: u32, zs: u32)
    by (bit_vector)
    requires
        e <= 127,
        x <= 262143,
        y <= 262143,
        z <= 262143,
        xs <= 1,
        ys <= 1,
        zs <= 1,
    ensures
        (((e << 25u32) | (zs << 24u32) | (ys << 23u32) | (xs << 22u32) | (z << 4u32) | (y >> 14u32))
            >> 25u32) & 0x7fu32 == e,
        ((y << 18u32) | x) & 0x3ffffu32 == x,
        ((((y << 18u32) | x) >> 18u32) & 0x3ffffu32) | ((((e << 25u32) | (zs << 24u32) | (ys << 23u32)
            | (xs << 22u32) | (z << 4u32) | (y >> 14u32)) & 0xfu32) << 14u32) == y,
        (((e << 25u32) | (zs << 24u32) | (ys << 23u32) | (xs << 22u32) | (z << 4u32) | (y >> 14u32))
            >> 4u32) & 0x3ffffu32 == z,
        (((e << 25u32) | (zs << 24u32) | (ys << 23u32) | (xs << 22u32) | (z << 4u32) | (y >> 14u32))
            >> 22u32) & 1u32 == xs,
        (((e << 25u32) | (zs << 24u32) | (ys << 23u32) | (xs << 22u32) | (z << 4u32) | (y >> 14u32))
            >> 23u32) & 1u32 == ys,
        (((e << 25u32) | (zs << 24u32) | (ys << 23u32) | (xs << 22u32) | (z << 4u32) | (y >> 14u32))
            >> 24u32) & 1u32 == zs,
{
}

proof fn lemma_sign_bit(b: u64)
    by (bit_vector)
    ensures
        b >> 63u64 <= 1,
{
}

/// Decoding an encoded vector keeps each channel's sign and gives back its
/// magnitude, limited to the largest encodable one, within half a mantissa
/// step at the shared exponent.
pub proof fn lemma_xyz18e7_f64_round_trip(xyz: [u64; 3])
    ensures
        forall|i: int|
            0 <= i < 3 ==> {
                let w = xyz18e7_f64_word(xyz);
                let p = pow2(xyz18e7_f64_format().step_shift(xyz18e7_f64_exponent(w) as int, 1074) as nat);
                &&& xyz18e7_f64_negative(w, i) == f64_sign(xyz[i])
                &&& xyz18e7_f64_clamped(xyz[i]) <= #[trigger] xyz18e7_f64_units(xyz18e7_f64_word(xyz), i) + p / 2
                &&& xyz18e7_f64_units(w, i) <= xyz18e7_f64_clamped(xyz[i]) + p / 2
            },
{
    let f = xyz18e7_f64_format();
    lemma2_to64();
    assert(f.layout_wf());
    let top = xyz18e7_f64_top();
    let (e, x, y, z) = xyz18e7_f64_encoding(xyz);
    lemma_encoding_error(
        f,
        f64_channel_units(xyz[0], true, top),
        f64_channel_units(xyz[1], true, top),
        f64_channel_units(xyz[2], true, top),
        top,
        1074,
    );
    lemma_sign_bit(xyz[0]);
    lemma_sign_bit(xyz[1]);
    lemma_sign_bit(xyz[2]);
    lemma_fields(
        e as u32,
        x as u32,
        y as u32,
        z as u32,
        (xyz[0] >> 63u64) as u32,
        (xyz[1] >> 63u64) as u32,
        (xyz[2] >> 63u64) as u32,
    );
}

/// The encoded word holds the shared exponent and each channel's mantissa
/// and sign.
proof fn lemma_xyz18e7_f64_word(xyz: [u64; 3])
    ensures
        ({
            let (e, m0, m1, m2) = xyz18e7_f64_encoding(xyz);
            let w = xyz18e7_f64_word(xyz);
            let p = pow2(xyz18e7_f64_format().step_shift(e, 1074) as nat);
            &&& xyz18e7_f64_exponent(w) == e
            &&& xyz18e7_f64_units(w, 0) == m0 * p
            &&& xyz18e7_f64_units(w, 1) == m1 * p
            &&& xyz18e7_f64_units(w, 2) == m2 * p
            &&& xyz18e7_f64_negative(w, 0) == f64_sign(xyz[0])
            &&& xyz18e7_f64_negative(w, 1) == f64_sign(xyz[1])
            &&& xyz18e7_f64_negative(w, 2) == f64_sign(xyz[2])
        }),
{
    let f = xyz18e7_f64_format();
    lemma2_to64();
    assert(f.layout_wf());
    let top = xyz18e7_f64_top();
    let (e, x, y, z) = xyz18e7_f64_encoding(xyz);
    lemma_encoding_error(
        f,
        f64_channel_units(xyz[0], true, top),
        f64_channel_units(xyz[1], true, top),
        f64_channel_units(xyz[2], true, top),
        top,
        1074,
    );
    lemma_sign_bit(xyz[0]);
    lemma_sign_bit(xyz[1]);
    lemma_sign_bit(xyz[2]);
    lemma_fields(
        e as u32,
        x as u32,
        y as u32,
        z as u32,
        (xyz[0] >> 63u64) as u32,
        (xyz[1] >> 63u64) as u32,
        (xyz[2] >> 63u64) as u32,
    );
}

/// NaN channels decode to zero.
pub proof fn lemma_xyz18e7_f64_nan_is_zero(xyz: [u64; 3])
    requires
        f64_is_nan(xyz[0]),
        f64_is_nan(xyz[1]),
        f64_is_nan(xyz[2]),
    ensures
        xyz18e7_f64_units(xyz18e7_f64_word(xyz), 0) == 0,
        xyz18e7_f64_units(xyz18e7_f64_word(xyz), 1) == 0,
        xyz18e7_f64_units(xyz18e7_f64_word(xyz), 2) == 0,
{
    lemma2_to64();
    assert(xyz18e7_f64_format().layout_wf());
    lemma_xyz18e7_f64_word(xyz);
    lemma_encoding_zero(xyz18e7_f64_format(), xyz18e7_f64_top(), 1074);
    assert(f64_channel_units(xyz[0], true, xyz18e7_f64_top()) == 0);
    assert(f64_channel_units(xyz[1], true, xyz18e7_f64_top()) == 0);
    assert(f64_channel_units(xyz[2], true, xyz18e7_f64_top()) == 0);
    assert(xyz18e7_f64_encoding(xyz) == (0int, 0nat, 0nat, 0nat));
    vstd::arithmetic::mul::lemma_mul_by_zero_is_zero(
        pow2(xyz18e7_f64_format().step_shift(0, 1074) as nat) as int,
    );
}

/// Saturation: infinite channels decode to the largest encodable magnitude,
/// each keeping its sign.
pub proof fn lemma_xyz18e7_f64_infinity_saturates(xyz: [u64; 3])
    requires
        f64_is_inf(xyz[0]),
        f64_is_inf(xyz[1]),
        f64_is_inf(xyz[2]),
    ensures
        xyz18e7_f64_units(xyz18e7_f64_word(xyz), 0) == xyz18e7_f64_top(),
        xyz18e7_f64_units(xyz18e7_f64_word(xyz), 1) == xyz18e7_f64_top(),
        xyz18e7_f64_units(xyz18e7_f64_word(xyz), 2) == xyz18e7_f64_top(),
{
    lemma2_to64();
    assert(xyz18e7_f64_format().layout_wf());
    lemma_xyz18e7_f64_word(xyz);
    lemma_encoding_top(xyz18e7_f64_format(), 1074);
}

/// Exact representables: ones come back exactly (`2^1074` units).
pub proof fn lemma_xyz18e7_f64_one_is_exact(xyz: [u64; 3])
    requires
        xyz[0] == 0x3ff0_0000_0000_0000,
        xyz[1] == 0x3ff0_0000_0000_0000,
        xyz[2] == 0x3ff0_0000_0000_0000,
    ensures
        xyz18e7_f64_units(xyz18e7_f64_word(xyz), 0) == pow2(1074),
        xyz18e7_f64_units(xyz18e7_f64_word(xyz), 1) == pow2(1074),
        xyz18e7_f64_units(xyz18e7_f64_word(xyz), 2) == pow2(1074),
        !xyz18e7_f64_negative(xyz18e7_f64_word(xyz), 0),
        !xyz18e7_f64_negative(xyz18e7_f64_word(xyz), 1),
        !xyz18e7_f64_negative(xyz18e7_f64_word(xyz), 2),
{
    lemma2_to64();
    assert(xyz18e7_f64_format().layout_wf());
    lemma_f64_one();
    lemma_xyz18e7_f64_word(xyz);
    lemma_one_in_range(xyz18e7_f64_format(), 1074);
    lemma_encoding_one(xyz18e7_f64_format(), xyz18e7_f64_top(), 1074);
}

} // verus!
