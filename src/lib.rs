//! Shared-exponent encodings of three-channel vectors.
//!
//! Floating-point channels are handled as their IEEE-754 bit patterns, and every
//! magnitude is an exact integer multiple of the smallest subnormal of its type,
//! so the whole engine is integer arithmetic.
use vstd::prelude::*;

pub mod custom_shared_format;
pub mod dyadic;
pub mod ieee;
pub mod rgb9e5;
pub mod xyz13e6;
pub mod xyz14e3;
pub mod xyz18e7;
pub mod xyz18e7_f64test;
pub mod xyz8e5;
pub mod xyz9e2;

use crate::ieee::{f32_is_nan, f64_is_nan};
use vstd::std_specs::cmp::PartialOrdSpec;

verus! {

/// Replaces a NaN `f32` (given as its bit pattern) by positive zero.
pub fn nan_to_zero(value: u32) -> (r: u32)
    ensures
        r == if f32_is_nan(value) {
            0u32
        } else {
            value
        },
{
    if (value >> 23u32) & 0xffu32 == 0xff && value & 0x7fffffu32 != 0 {
        0
    } else {
        value
    }
}

/// Replaces a NaN `f64` (given as its bit pattern) by positive zero.
pub fn nan_to_zero64(value: u64) -> (r: u64)
    ensures
        r == if f64_is_nan(value) {
            0u64
        } else {
            value
        },
{
    if (value >> 52u64) & 0x7ffu64 == 0x7ff && value & 0xfffffffffffffu64 != 0 {
        0
    } else {
        value
    }
}

/// The larger of two values; `b` unless `a > b`.
pub fn max<T: PartialOrd>(a: T, b: T) -> (r: T)
    ensures
        T::obeys_partial_cmp_spec() ==> r == if a.partial_cmp_spec(&b) == Some(
            core::cmp::Ordering::Greater,
        ) {
            a
        } else {
            b
        },
{
    if a > b {
        a
    } else {
        b
    }
}

/// The smaller of two values; `b` unless `a < b`.
pub fn min<T: PartialOrd>(a: T, b: T) -> (r: T)
    ensures
        T::obeys_partial_cmp_spec() ==> r == if a.partial_cmp_spec(&b) == Some(
            core::cmp::Ordering::Less,
        ) {
            a
        } else {
            b
        },
{
    if a < b {
        a
    } else {
        b
    }
}

/// The `bits`-wide field of `value` that starts at bit `offset`.
pub fn bitfield_extract(value: u32, offset: u32, bits: u32) -> (r: u32)
    requires
        offset < 32,
        bits < 32,
    ensures
        r == (value >> offset) & vstd::prelude::sub(1u32 << bits, 1u32),
{
    assert(1u32 << bits >= 1u32) by (bit_vector)
        requires
            bits < 32,
    ;
    let mask: u32 = (1u32 << bits) - 1u32;
    (value >> offset) & mask
}

/// The `bits`-wide field of a 16-bit `value` that starts at bit `offset`.
pub fn bitfield_extract_u16(value: u16, offset: u16, bits: u16) -> (r: u16)
    requires
        offset < 16,
        bits < 16,
    ensures
        r == (value >> offset) & vstd::prelude::sub(1u16 << bits, 1u16),
{
    assert(1u16 << bits >= 1u16) by (bit_vector)
        requires
            bits < 16,
    ;
    let mask: u16 = (1u16 << bits) - 1u16;
    (value >> offset) & mask
}

} // verus!
