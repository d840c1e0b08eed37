//! IEEE-754 binary32 and binary64 values seen through their bit patterns.
//!
//! A finite value's magnitude is an exact integer count of the type's smallest
//! subnormal (`2^-149` for `f32`, `2^-1074` for `f64`).
use crate::dyadic::{
    bit_len, bit_length, lemma_bit_len_below, lemma_bit_len_bounds, lemma_bit_len_shift,
    lemma_bit_len_unique, Magnitude,
};
use vstd::arithmetic::mul::*;
use vstd::arithmetic::power2::*;
use vstd::bits::*;
use vstd::prelude::*;

verus! {

pub open spec fn f32_sign(b: u32) -> bool {
    (b >> 31u32) == 1u32
}

pub open spec fn f32_exp_field(b: u32) -> u32 {
    (b >> 23u32) & 0xffu32
}

pub open spec fn f32_frac(b: u32) -> u32 {
    b & 0x7fffffu32
}

pub open spec fn f32_is_finite(b: u32) -> bool {
    f32_exp_field(b) != 0xff
}

pub open spec fn f32_is_nan(b: u32) -> bool {
    f32_exp_field(b) == 0xff && f32_frac(b) != 0
}

pub open spec fn f32_is_inf(b: u32) -> bool {
    f32_exp_field(b) == 0xff && f32_frac(b) == 0
}

/// Exact magnitude of a finite `f32`, in units of `2^-149`.
pub open spec fn f32_units(b: u32) -> nat {
    if f32_exp_field(b) == 0 {
        f32_frac(b) as nat
    } else {
        (f32_frac(b) as nat + pow2(23)) * pow2((f32_exp_field(b) - 1) as nat)
    }
}

pub open spec fn f64_sign(b: u64) -> bool {
    (b >> 63u64) == 1u64
}

pub open spec fn f64_exp_field(b: u64) -> u64 {
    (b >> 52u64) & 0x7ffu64
}

pub open spec fn f64_frac(b: u64) -> u64 {
    b & 0xfffffffffffffu64
}

pub open spec fn f64_is_finite(b: u64) -> bool {
    f64_exp_field(b) != 0x7ff
}

pub open spec fn f64_is_nan(b: u64) -> bool {
    f64_exp_field(b) == 0x7ff && f64_frac(b) != 0
}

pub open spec fn f64_is_inf(b: u64) -> bool {
    f64_exp_field(b) == 0x7ff && f64_frac(b) == 0
}

/// Exact magnitude of a finite `f64`, in units of `2^-1074`.
pub open spec fn f64_units(b: u64) -> nat {
    if f64_exp_field(b) == 0 {
        f64_frac(b) as nat
    } else {
        (f64_frac(b) as nat + pow2(52)) * pow2((f64_exp_field(b) - 1) as nat)
    }
}

proof fn lemma_f32_fields(s: u32, e: u32, f: u32)
    by (bit_vector)
    requires
        s <= 1,
        e <= 0xff,
        f <= 0x7fffff,
    ensures
        (((s << 31u32) | (e << 23u32) | f) >> 31u32) == s,
        (((s << 31u32) | (e << 23u32) | f) >> 23u32) & 0xffu32 == e,
        ((s << 31u32) | (e << 23u32) | f) & 0x7fffffu32 == f,
{
}

proof fn lemma_f64_fields(s: u64, e: u64, f: u64)
    by (bit_vector)
    requires
        s <= 1,
        e <= 0x7ff,
        f <= 0xfffffffffffff,
    ensures
        (((s << 63u64) | (e << 52u64) | f) >> 63u64) == s,
        (((s << 63u64) | (e << 52u64) | f) >> 52u64) & 0x7ffu64 == e,
        ((s << 63u64) | (e << 52u64) | f) & 0xfffffffffffffu64 == f,
{
}

/// The magnitude of a finite `f32`.
pub fn f32_magnitude(b: u32) -> (m: Magnitude)
    requires
        f32_is_finite(b),
    ensures
        m.units() == f32_units(b),
        m.wf(),
        m.sig < 0x1000000,
        m.shift <= 253,
{
    let e: u32 = (b >> 23u32) & 0xffu32;
    let f: u32 = b & 0x7fffffu32;
    assert(f <= 0x7fffff) by (bit_vector)
        requires
            f == b & 0x7fffffu32,
    ;
    assert(e <= 0xff) by (bit_vector)
        requires
            e == (b >> 23u32) & 0xffu32,
    ;
    proof {
        lemma2_to64();
    }
    if e == 0 {
        proof {
            lemma_mul_basics(f as int);
        }
        Magnitude { sig: f as u64, shift: 0 }
    } else {
        Magnitude { sig: (f + 0x800000u32) as u64, shift: e - 1 }
    }
}

/// The magnitude of a finite `f64`.
pub fn f64_magnitude(b: u64) -> (m: Magnitude)
    requires
        f64_is_finite(b),
    ensures
        m.units() == f64_units(b),
        m.wf(),
        m.sig < 0x20000000000000,
        m.shift <= 2045,
{
    let e: u64 = (b >> 52u64) & 0x7ffu64;
    let f: u64 = b & 0xfffffffffffffu64;
    assert(f <= 0xfffffffffffff) by (bit_vector)
        requires
            f == b & 0xfffffffffffffu64,
    ;
    assert(e <= 0x7ff) by (bit_vector)
        requires
            e == (b >> 52u64) & 0x7ffu64,
    ;
    proof {
        lemma2_to64();
        lemma2_to64_rest();
    }
    if e == 0 {
        proof {
            lemma_mul_basics(f as int);
        }
        Magnitude { sig: f, shift: 0 }
    } else {
        Magnitude { sig: f + 0x10000000000000u64, shift: (e - 1) as u32 }
    }
}

/// The `f32` whose value is `(-1)^neg * m * 2^d`, which must be zero or a
/// normal number.
pub fn f32_from_parts(neg: bool, m: u32, d: i32) -> (r: u32)
    requires
        m < 0x1000000,
        d >= -149,
        m != 0 ==> -126 <= bit_len(m as nat) - 1 + d <= 127,
    ensures
        f32_sign(r) == neg,
        f32_is_finite(r),
        f32_units(r) == m * pow2((d + 149) as nat),
{
    let s: u32 = if neg {
        1
    } else {
        0
    };
    proof {
        lemma2_to64();
    }
    if m == 0 {
        proof {
            lemma_f32_fields(s, 0, 0);
            lemma_mul_basics(pow2((d + 149) as nat) as int);
        }
        return (s << 31u32) | (0u32 << 23u32) | 0u32;
    }
    let l: u32 = bit_length(m as u64);
    proof {
        lemma_bit_len_bounds(m as nat);
        lemma_bit_len_below(m as nat, 24);
    }
    let e: u32 = (l as i32 - 1 + d + 127) as u32;
    let sh: u32 = 24 - l;
    proof {
        lemma_pow2_pos(sh as nat);
        lemma_mul_strict_inequality(m as int, pow2(l as nat) as int, pow2(sh as nat) as int);
        lemma_mul_inequality(pow2((l - 1) as nat) as int, m as int, pow2(sh as nat) as int);
        lemma_pow2_adds(l as nat, sh as nat);
        lemma_pow2_adds((l - 1) as nat, sh as nat);
        assert((l - 1) as nat + sh as nat == 23);
        lemma_u32_shl_is_mul(m, sh);
    }
    let mant: u32 = m << sh;
    let frac: u32 = mant - 0x800000u32;
    proof {
        lemma_f32_fields(s, e, frac);
        lemma_pow2_adds(sh as nat, (e - 1) as nat);
        assert(sh as nat + (e - 1) as nat == (d + 149) as nat);
        lemma_mul_is_associative(m as int, pow2(sh as nat) as int, pow2((e - 1) as nat) as int);
    }
    (s << 31u32) | (e << 23u32) | frac
}

/// The `f64` whose value is `(-1)^neg * m * 2^d`, which must be zero or a
/// normal number.
pub fn f64_from_parts(neg: bool, m: u64, d: i32) -> (r: u64)
    requires
        m < 0x20000000000000,
        d >= -1074,
        m != 0 ==> -1022 <= bit_len(m as nat) - 1 + d <= 1023,
    ensures
        f64_sign(r) == neg,
        f64_is_finite(r),
        f64_units(r) == m * pow2((d + 1074) as nat),
{
    let s: u64 = if neg {
        1
    } else {
        0
    };
    proof {
        lemma2_to64();
        lemma2_to64_rest();
    }
    if m == 0 {
        proof {
            lemma_f64_fields(s, 0, 0);
            lemma_mul_basics(pow2((d + 1074) as nat) as int);
        }
        return (s << 63u64) | (0u64 << 52u64) | 0u64;
    }
    let l: u32 = bit_length(m);
    proof {
        lemma_bit_len_bounds(m as nat);
        lemma_bit_len_below(m as nat, 53);
    }
    let e: u64 = (l as i32 - 1 + d + 1023) as u64;
    let sh: u64 = (53 - l) as u64;
    proof {
        lemma_pow2_pos(sh as nat);
        lemma_mul_strict_inequality(m as int, pow2(l as nat) as int, pow2(sh as nat) as int);
        lemma_mul_inequality(pow2((l - 1) as nat) as int, m as int, pow2(sh as nat) as int);
        lemma_pow2_adds(l as nat, sh as nat);
        lemma_pow2_adds((l - 1) as nat, sh as nat);
        assert((l - 1) as nat + sh as nat == 52);
        lemma_u64_shl_is_mul(m, sh);
    }
    let mant: u64 = m << sh;
    let frac: u64 = mant - 0x10000000000000u64;
    proof {
        lemma_f64_fields(s, e, frac);
        lemma_pow2_adds(sh as nat, (e - 1) as nat);
        assert(sh as nat + (e - 1) as nat == (d + 1074) as nat);
        lemma_mul_is_associative(m as int, pow2(sh as nat) as int, pow2((e - 1) as nat) as int);
    }
    (s << 63u64) | (e << 52u64) | frac
}

/// `1.0f32` is `0x3f80_0000`: `2^149` units.
pub proof fn lemma_f32_one()
    ensures
        f32_is_finite(0x3f80_0000),
        !f32_is_nan(0x3f80_0000),
        !f32_sign(0x3f80_0000),
        f32_units(0x3f80_0000) == pow2(149),
{
    assert(f32_exp_field(0x3f80_0000) == 127 && f32_frac(0x3f80_0000) == 0 && !f32_sign(
        0x3f80_0000,
    )) by (bit_vector);
    lemma2_to64();
    lemma_pow2_adds(23, 126);
}

/// `1.0f64` is `0x3ff0_0000_0000_0000`: `2^1074` units.
pub proof fn lemma_f64_one()
    ensures
        f64_is_finite(0x3ff0_0000_0000_0000),
        !f64_is_nan(0x3ff0_0000_0000_0000),
        !f64_sign(0x3ff0_0000_0000_0000),
        f64_units(0x3ff0_0000_0000_0000) == pow2(1074),
{
    assert(f64_exp_field(0x3ff0_0000_0000_0000) == 1023 && f64_frac(0x3ff0_0000_0000_0000) == 0
        && !f64_sign(0x3ff0_0000_0000_0000)) by (bit_vector);
    lemma2_to64();
    lemma2_to64_rest();
    lemma_pow2_adds(52, 1022);
}

proof fn lemma_f32_reassemble(b: u32)
    by (bit_vector)
    ensures
        b == ((b >> 31u32) << 31u32) | (((b >> 23u32) & 0xffu32) << 23u32) | (b & 0x7fffffu32),
        b & 0x7fffffu32 <= 0x7fffff,
{
}

proof fn lemma_f64_reassemble(b: u64)
    by (bit_vector)
    ensures
        b == ((b >> 63u64) << 63u64) | (((b >> 52u64) & 0x7ffu64) << 52u64) | (b
            & 0xfffffffffffffu64),
        b & 0xfffffffffffffu64 <= 0xfffffffffffff,
        (b >> 63u64) <= 1,
{
}

/// A normal significand `s` in `[2^(w-1), 2^w)`, scaled by `2^k`, has
/// `w + k` significant bits.
proof fn lemma_normal_bit_len(s: nat, w: nat, k: nat)
    requires
        w >= 1,
        pow2((w - 1) as nat) <= s < pow2(w),
    ensures
        bit_len(s * pow2(k)) == w + k,
        s * pow2(k) >= pow2((w - 1) as nat),
{
    lemma_pow2_pos((w - 1) as nat);
    lemma_bit_len_unique(s, w);
    lemma_bit_len_shift(s, k);
    lemma_pow2_pos(k);
    lemma_mul_increases(pow2(k) as int, s as int);
    lemma_mul_is_commutative(pow2(k) as int, s as int);
}

/// A finite `f32` is determined by its sign and exact magnitude: two bit
/// patterns that agree on both are equal.
pub proof fn lemma_f32_determined(a: u32, b: u32)
    requires
        f32_is_finite(a),
        f32_is_finite(b),
        f32_sign(a) == f32_sign(b),
        f32_units(a) == f32_units(b),
    ensures
        a == b,
{
    lemma_f32_reassemble(a);
    lemma_f32_reassemble(b);
    assert((a >> 31u32) <= 1 && (b >> 31u32) <= 1) by (bit_vector);
    lemma2_to64();
    let ea = f32_exp_field(a);
    let eb = f32_exp_field(b);
    let fa = f32_frac(a) as nat;
    let fb = f32_frac(b) as nat;
    if ea != 0 {
        lemma_normal_bit_len(fa + pow2(23), 24, (ea - 1) as nat);
    }
    if eb != 0 {
        lemma_normal_bit_len(fb + pow2(23), 24, (eb - 1) as nat);
    }
    if ea != 0 && eb != 0 {
        assert(ea == eb);
        lemma_pow2_pos((ea - 1) as nat);
        lemma_mul_is_commutative(pow2((ea - 1) as nat) as int, (fa + pow2(23)) as int);
        lemma_mul_is_commutative(pow2((ea - 1) as nat) as int, (fb + pow2(23)) as int);
        lemma_mul_equality_converse(
            pow2((ea - 1) as nat) as int,
            (fa + pow2(23)) as int,
            (fb + pow2(23)) as int,
        );
    }
}

/// A finite `f64` is determined by its sign and exact magnitude: two bit
/// patterns that agree on both are equal.
pub proof fn lemma_f64_determined(a: u64, b: u64)
    requires
        f64_is_finite(a),
        f64_is_finite(b),
        f64_sign(a) == f64_sign(b),
        f64_units(a) == f64_units(b),
    ensures
        a == b,
{
    lemma_f64_reassemble(a);
    lemma_f64_reassemble(b);
    lemma2_to64();
    lemma2_to64_rest();
    let ea = f64_exp_field(a);
    let eb = f64_exp_field(b);
    let fa = f64_frac(a) as nat;
    let fb = f64_frac(b) as nat;
    if ea != 0 {
        lemma_normal_bit_len(fa + pow2(52), 53, (ea - 1) as nat);
    }
    if eb != 0 {
        lemma_normal_bit_len(fb + pow2(52), 53, (eb - 1) as nat);
    }
    if ea != 0 && eb != 0 {
        assert(ea == eb);
        lemma_pow2_pos((ea - 1) as nat);
        lemma_mul_is_commutative(pow2((ea - 1) as nat) as int, (fa + pow2(52)) as int);
        lemma_mul_is_commutative(pow2((ea - 1) as nat) as int, (fb + pow2(52)) as int);
        lemma_mul_equality_converse(
            pow2((ea - 1) as nat) as int,
            (fa + pow2(52)) as int,
            (fb + pow2(52)) as int,
        );
    }
}

} // verus!
