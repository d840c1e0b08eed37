//! `rgb9e5`: an unsigned 4-byte format, 5 exponent bits and three 9-bit
//! mantissas.
use crate::bitfield_extract;
use crate::custom_shared_format::{
    clamp_units, f32_channel, f32_channel_units, lemma_encoding_error, lemma_encoding_one,
    lemma_encoding_top, lemma_encoding_zero, lemma_one_in_range, SharedExponentFormat,
};
use crate::ieee::{f32_is_finite, f32_is_inf, f32_is_nan, f32_sign, f32_units, lemma_f32_one};
use vstd::arithmetic::power2::*;
use vstd::prelude::*;

verus! {

pub const NAME: &'static str = "rgb9e5";

pub const BYTES: u8 = 4;

pub const SIGNED: bool = false;

pub const RGB9E5_EXPONENT_BITS: i32 = 5;

pub const RGB9E5_MANTISSA_BITS: i32 = 9;

pub const RGB9E5_EXP_BIAS: i32 = 15;

pub const RGB9E5_MAX_VALID_BIASED_EXP: i32 = 31;

pub const MAX_RGB9E5_EXP: i32 = RGB9E5_MAX_VALID_BIASED_EXP - RGB9E5_EXP_BIAS;

pub const RGB9E5_MANTISSA_VALUES: i32 = 512;

pub const MAX_RGB9E5_MANTISSA: i32 = RGB9E5_MANTISSA_VALUES - 1;

pub open spec fn rgb9e5_format() -> SharedExponentFormat {
    SharedExponentFormat {
        exponent_bits: 5,
        mantissa_bits: 9,
        max_valid_biased_exp: 31,
        exp_bias: 15,
        mantissa_values: 512,
        max_mantissa: 511,
        max_exp: 16,
    }
}

fn format() -> (r: SharedExponentFormat)
    ensures
        r == rgb9e5_format(),
        r.wf(),
        r.unit_ok(149),
{
    proof {
        lemma2_to64();
    }
    SharedExponentFormat {
        exponent_bits: 5,
        mantissa_bits: 9,
        max_valid_biased_exp: 31,
        exp_bias: 15,
        mantissa_values: 512,
        max_mantissa: 511,
        max_exp: 16,
    }
}

/// The largest encodable value, in units of `2^-149`.
pub open spec fn rgb9e5_top() -> nat {
    rgb9e5_format().top_units(149)
}

/// The magnitude a channel is encoded from: NaN and negative values give
/// zero, and everything is limited to the largest encodable value.
pub open spec fn rgb9e5_clamped(b: u32) -> nat {
    clamp_units(f32_channel_units(b, false, rgb9e5_top()), rgb9e5_top())
}

/// Shared exponent and mantissas of an encoded vector.
pub open spec fn rgb9e5_encoding(rgb: [u32; 3]) -> (int, nat, nat, nat) {
    rgb9e5_format().encoding(
        f32_channel_units(rgb[0], false, rgb9e5_top()),
        f32_channel_units(rgb[1], false, rgb9e5_top()),
        f32_channel_units(rgb[2], false, rgb9e5_top()),
        rgb9e5_top(),
        149,
    )
}

/// Bits 31..27 hold the exponent, then the blue, green and red mantissas.
pub open spec fn rgb9e5_pack(e: u32, r: u32, g: u32, b: u32) -> u32 {
    (e << 27u32) | (b << 18u32) | (g << 9u32) | r
}

pub open spec fn rgb9e5_word(rgb: [u32; 3]) -> u32 {
    let (e, r, g, b) = rgb9e5_encoding(rgb);
    rgb9e5_pack(e as u32, r as u32, g as u32, b as u32)
}

pub open spec fn rgb9e5_exponent(v: u32) -> u32 {
    (v >> 27u32) & 0x1fu32
}

/// The mantissa of channel `i` (0 red, 1 green, 2 blue).
pub open spec fn rgb9e5_mantissa(v: u32, i: int) -> u32 {
    if i == 0 {
        v & 0x1ffu32
    } else if i == 1 {
        (v >> 9u32) & 0x1ffu32
    } else {
        (v >> 18u32) & 0x1ffu32
    }
}

/// The value of channel `i` of an encoded vector, in units of `2^-149`.
pub open spec fn rgb9e5_units(v: u32, i: int) -> nat {
    rgb9e5_mantissa(v, i) as nat * pow2(
        rgb9e5_format().step_shift(rgb9e5_exponent(v) as int, 149) as nat,
    )
}

/// Encodes three `f32` channels, given as bit patterns.
pub fn vec3_to_rgb9e5(rgb: [u32; 3]) -> (r: u32)
    ensures
        r == rgb9e5_word(rgb),
{
    let f = format();
    let top = f.top(149);
    let c = [
        f32_channel(rgb[0], false, top),
        f32_channel(rgb[1], false, top),
        f32_channel(rgb[2], false, top),
    ];
    let (m, e) = f.encode_magnitudes(c, top, 149);
    (e << 27u32) | (m[2] << 18u32) | (m[1] << 9u32) | m[0]
}

/// Decodes to three `f32` bit patterns.
pub fn rgb9e5_to_vec3(v: u32) -> (r: [u32; 3])
    ensures
        forall|i: int|
            0 <= i < 3 ==> !f32_sign(#[trigger] r[i]) && f32_is_finite(r[i]) && f32_units(r[i])
                == rgb9e5_units(v, i),
{
    let f = format();
    let e = bitfield_extract(v, 27, 5);
    let r = bitfield_extract(v, 0, 9);
    let g = bitfield_extract(v, 9, 9);
    let b = bitfield_extract(v, 18, 9);
    proof {
        lemma_masks(v);
    }
    [f.mantissa_to_f32(false, r, e), f.mantissa_to_f32(false, g, e), f.mantissa_to_f32(false, b, e)]
}

proof fn lemma_masks(v: u32)
    by (bit_vector)
    ensures
        (v >> 27u32) & vstd::prelude::sub(1u32 << 5u32, 1u32) == (v >> 27u32) & 0x1fu32,
        (v >> 27u32) & 0x1fu32 <= 31,
        (v >> 0u32) & vstd::prelude::sub(1u32 << 9u32, 1u32) == v & 0x1ffu32,
        (v >> 9u32) & vstd::prelude::sub(1u32 << 9u32, 1u32) == (v >> 9u32) & 0x1ffu32,
        (v >> 18u32) & vstd::prelude::sub(1u32 << 9u32, 1u32) == (v >> 18u32) & 0x1ffu32,
        v & 0x1ffu32 <= 511,
        (v >> 9u32) & 0x1ffu32 <= 511,
        (v >> 18u32) & 0x1ffu32 <= 511,
{
}

proof fn lemma_fields(e: u32, r: u32, g: u32, b: u32)
    by (bit_vector)
    requires
        e < 32,
        r < 512,
        g < 512,
        b < 512,
    ensures
        (((e << 27u32) | (b << 18u32) | (g << 9u32) | r) >> 27u32) & 0x1fu32 == e,
        ((e << 27u32) | (b << 18u32) | (g << 9u32) | r) & 0x1ffu32 == r,
        (((e << 27u32) | (b << 18u32) | (g << 9u32) | r) >> 9u32) & 0x1ffu32 == g,
        (((e << 27u32) | (b << 18u32) | (g << 9u32) | r) >> 18u32) & 0x1ffu32 == b,
{
}

/// Decoding an encoded vector gives back each channel, limited to
/// the representable range, within half a mantissa step at the shared exponent.
pub proof fn lemma_rgb9e5_round_trip(rgb: [u32; 3])
    ensures
        forall|i: int|
            0 <= i < 3 ==> {
                let p = pow2(
                    rgb9e5_format().step_shift(rgb9e5_exponent(rgb9e5_word(rgb)) as int, 149)
                        as nat,
                );
                &&& rgb9e5_clamped(rgb[i]) <= #[trigger] rgb9e5_units(rgb9e5_word(rgb), i) + p
                    / 2
                &&& rgb9e5_units(rgb9e5_word(rgb), i) <= rgb9e5_clamped(rgb[i]) + p / 2
            },
{
    let f = rgb9e5_format();
    lemma2_to64();
    assert(f.wf());
    let top = rgb9e5_top();
    let (e, r, g, b) = rgb9e5_encoding(rgb);
    lemma_encoding_error(
        f,
        f32_channel_units(rgb[0], false, top),
        f32_channel_units(rgb[1], false, top),
        f32_channel_units(rgb[2], false, top),
        top,
        149,
    );
    lemma_fields(e as u32, r as u32, g as u32, b as u32);
}

/// The encoded word holds the shared exponent and each channel's mantissa
/// and sign.
proof fn lemma_rgb9e5_word(rgb: [u32; 3])
    ensures
        ({
            let (e, m0, m1, m2) = rgb9e5_encoding(rgb);
            let w = rgb9e5_word(rgb);
            let p = pow2(rgb9e5_format().step_shift(e, 149) as nat);
            &&& rgb9e5_exponent(w) == e
            &&& rgb9e5_units(w, 0) == m0 * p
            &&& rgb9e5_units(w, 1) == m1 * p
            &&& rgb9e5_units(w, 2) == m2 * p
        }),
{
    let f = rgb9e5_format();
    lemma2_to64();
    assert(f.wf());
    let top = rgb9e5_top();
    let (e, r, g, b) = rgb9e5_encoding(rgb);
    lemma_encoding_error(
        f,
        f32_channel_units(rgb[0], false, top),
        f32_channel_units(rgb[1], false, top),
        f32_channel_units(rgb[2], false, top),
        top,
        149,
    );
    lemma_fields(e as u32, r as u32, g as u32, b as u32);
}

/// NaN and negative channels decode to zero.
pub proof fn lemma_rgb9e5_nan_is_zero(rgb: [u32; 3])
    requires
        f32_is_nan(rgb[0]) || f32_sign(rgb[0]),
        f32_is_nan(rgb[1]) || f32_sign(rgb[1]),
        f32_is_nan(rgb[2]) || f32_sign(rgb[2]),
    ensures
        rgb9e5_units(rgb9e5_word(rgb), 0) == 0,
        rgb9e5_units(rgb9e5_word(rgb), 1) == 0,
        rgb9e5_units(rgb9e5_word(rgb), 2) == 0,
{
    lemma2_to64();
    assert(rgb9e5_format().layout_wf());
    lemma_rgb9e5_word(rgb);
    lemma_encoding_zero(rgb9e5_format(), rgb9e5_top(), 149);
    assert(f32_channel_units(rgb[0], false, rgb9e5_top()) == 0);
    assert(f32_channel_units(rgb[1], false, rgb9e5_top()) == 0);
    assert(f32_channel_units(rgb[2], false, rgb9e5_top()) == 0);
    assert(rgb9e5_encoding(rgb) == (0int, 0nat, 0nat, 0nat));
    vstd::arithmetic::mul::lemma_mul_by_zero_is_zero(
        pow2(rgb9e5_format().step_shift(0, 149) as nat) as int,
    );
}

/// Saturation: positive infinite channels decode to the largest encodable
/// magnitude.
pub proof fn lemma_rgb9e5_infinity_saturates(rgb: [u32; 3])
    requires
        f32_is_inf(rgb[0]) && !f32_sign(rgb[0]),
        f32_is_inf(rgb[1]) && !f32_sign(rgb[1]),
        f32_is_inf(rgb[2]) && !f32_sign(rgb[2]),
    ensures
        rgb9e5_units(rgb9e5_word(rgb), 0) == rgb9e5_top(),
        rgb9e5_units(rgb9e5_word(rgb), 1) == rgb9e5_top(),
        rgb9e5_units(rgb9e5_word(rgb), 2) == rgb9e5_top(),
{
    lemma2_to64();
    assert(rgb9e5_format().layout_wf());
    lemma_rgb9e5_word(rgb);
    lemma_encoding_top(rgb9e5_format(), 149);
}

/// Exact representables: ones come back exactly (`2^149` units).
pub proof fn lemma_rgb9e5_one_is_exact(rgb: [u32; 3])
    requires
        rgb[0] == 0x3f80_0000,
        rgb[1] == 0x3f80_0000,
        rgb[2] == 0x3f80_0000,
    ensures
        rgb9e5_units(rgb9e5_word(rgb), 0) == pow2(149),
        rgb9e5_units(rgb9e5_word(rgb), 1) == pow2(149),
        rgb9e5_units(rgb9e5_word(rgb), 2) == pow2(149),
{
    lemma2_to64();
    assert(rgb9e5_format().layout_wf());
    lemma_f32_one();
    lemma_rgb9e5_word(rgb);
    lemma_one_in_range(rgb9e5_format(), 149);
    lemma_encoding_one(rgb9e5_format(), rgb9e5_top(), 149);
}

} // verus!
