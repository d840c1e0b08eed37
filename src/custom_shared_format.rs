//! The generic shared-exponent engine, parameterized by exponent and mantissa
//! widths.
use crate::dyadic::{
    bit_len, bit_length, lemma_bit_len_below, lemma_bit_len_bounds, lemma_bit_len_shift,
    lemma_bit_len_unique, lemma_round_half_up_bound, lemma_round_half_up_error,
    lemma_round_half_up_exact, lemma_round_half_up_monotonic, lemma_units_bit_len, mag_le, quantize,
    round_half_up, Magnitude,
};
use crate::ieee::{
    f32_from_parts, f32_is_finite, f32_is_inf, f32_is_nan, f32_magnitude, f32_sign, f32_units,
    f64_from_parts, f64_is_finite, f64_is_inf, f64_is_nan, f64_magnitude, f64_sign, f64_units,
    lemma_f32_determined,
};
use vstd::arithmetic::div_mod::*;
use vstd::arithmetic::mul::*;
use vstd::arithmetic::power2::*;
use vstd::bits::*;
use vstd::prelude::*;

verus! {

/// Bit widths of a shared-exponent layout and the constants derived from them.
#[derive(Clone, Copy, Debug)]
pub struct SharedExponentFormat {
    pub exponent_bits: u8,
    pub mantissa_bits: u8,
    pub max_valid_biased_exp: i32,
    pub exp_bias: i32,
    pub mantissa_values: i32,
    pub max_mantissa: i32,
    pub max_exp: i32,
}

/// `u` limited to `limit`.
pub open spec fn clamp_units(u: nat, limit: nat) -> nat {
    if u <= limit {
        u
    } else {
        limit
    }
}

pub open spec fn max3(a: nat, b: nat, c: nat) -> nat {
    let ab = if a >= b {
        a
    } else {
        b
    };
    if ab >= c {
        ab
    } else {
        c
    }
}

impl SharedExponentFormat {
    /// What the engine needs of a layout: field widths within limits, the
    /// constants that follow from them, and a bias of at most 63 that leaves a
    /// non-negative top exponent.
    pub open spec fn layout_wf(&self) -> bool {
        &&& 1 <= self.exponent_bits <= 7
        &&& 1 <= self.mantissa_bits <= 24
        &&& self.max_valid_biased_exp == pow2(self.exponent_bits as nat) - 1
        &&& 0 <= self.exp_bias <= 63
        &&& self.exp_bias <= self.max_valid_biased_exp
        &&& self.mantissa_values == pow2(self.mantissa_bits as nat)
        &&& self.max_mantissa == self.mantissa_values - 1
        &&& self.max_exp == self.max_valid_biased_exp - self.exp_bias
    }

    /// A format as `new` derives it: the bias is half the largest biased
    /// exponent.
    pub open spec fn wf(&self) -> bool {
        &&& self.layout_wf()
        &&& self.exponent_bits * self.mantissa_bits <= 133
        &&& self.exp_bias == self.max_valid_biased_exp / 2
    }

    /// With magnitudes counted in units of `2^-unit_shift`, the quantization
    /// step at shared exponent `e` is `2^step_shift(e)` units.
    pub open spec fn step_shift(&self, e: int, unit_shift: nat) -> int {
        e - self.exp_bias - self.mantissa_bits + unit_shift
    }

    /// The largest encodable magnitude: every mantissa bit set at the top
    /// exponent.
    pub open spec fn top_units(&self, unit_shift: nat) -> nat {
        (self.max_mantissa * pow2(
            self.step_shift(self.max_valid_biased_exp as int, unit_shift) as nat,
        )) as nat
    }

    /// `max(-bias - 1, floor(log2(v))) + 1 + bias` for the value `v` that
    /// `maxu` units stand for, with `log2(0)` taken as minus infinity.
    pub open spec fn first_exp(&self, maxu: nat, unit_shift: nat) -> int {
        let lg = bit_len(maxu) - 1 - unit_shift;
        if maxu == 0 || lg < -self.exp_bias - 1 {
            0
        } else {
            lg + 1 + self.exp_bias
        }
    }

    /// The shared exponent for a largest channel of `maxu` units: the first
    /// guess, moved up one when rounding carries the mantissa out of range.
    pub open spec fn shared_exp(&self, maxu: nat, unit_shift: nat) -> int {
        let e0 = self.first_exp(maxu, unit_shift);
        if round_half_up(maxu, self.step_shift(e0, unit_shift) as nat) == self.mantissa_values {
            if e0 + 1 <= self.max_valid_biased_exp {
                e0 + 1
            } else {
                self.max_valid_biased_exp as int
            }
        } else {
            e0
        }
    }

    /// The mantissa of a channel of `c` units when the largest channel has
    /// `maxu` units.
    pub open spec fn mantissa_of(&self, c: nat, maxu: nat, unit_shift: nat) -> nat {
        round_half_up(c, self.step_shift(self.shared_exp(maxu, unit_shift), unit_shift) as nat)
    }

    /// The shared exponent and the three mantissas for three magnitudes, each
    /// first limited to `limit`.
    pub open spec fn encoding(&self, u0: nat, u1: nat, u2: nat, limit: nat, unit_shift: nat) -> (
        int,
        nat,
        nat,
        nat,
    ) {
        let c0 = clamp_units(u0, limit);
        let c1 = clamp_units(u1, limit);
        let c2 = clamp_units(u2, limit);
        let mx = max3(c0, c1, c2);
        (
            self.shared_exp(mx, unit_shift),
            self.mantissa_of(c0, mx, unit_shift),
            self.mantissa_of(c1, mx, unit_shift),
            self.mantissa_of(c2, mx, unit_shift),
        )
    }

    /// Unit sizes the engine supports: a step is never finer than one unit.
    pub open spec fn unit_ok(&self, unit_shift: nat) -> bool {
        87 <= unit_shift <= 1074
    }
}

/// Bounds that every well-formed layout satisfies.
pub proof fn lemma_format_bounds(f: SharedExponentFormat)
    requires
        f.layout_wf(),
    ensures
        1 <= f.max_valid_biased_exp <= 127,
        0 <= f.exp_bias <= 63,
        0 <= f.max_exp <= 127,
        2 <= f.mantissa_values <= 0x1000000,
        1 <= f.max_mantissa < f.mantissa_values,
{
    lemma2_to64();
    if f.exponent_bits < 7 {
        lemma_pow2_strictly_increases(f.exponent_bits as nat, 7);
    }
    lemma_pow2_unfold(f.exponent_bits as nat);
    if f.mantissa_bits < 24 {
        lemma_pow2_strictly_increases(f.mantissa_bits as nat, 24);
    }
    lemma_pow2_unfold(f.mantissa_bits as nat);
    lemma_pow2_pos((f.exponent_bits - 1) as nat);
    lemma_pow2_pos((f.mantissa_bits - 1) as nat);
}

/// Carry correction: for any largest channel up to the top of the range, the
/// chosen exponent is valid and the rounded mantissa stays below
/// `mantissa_values`.
pub proof fn lemma_shared_exp_fits(f: SharedExponentFormat, maxu: nat, unit_shift: nat)
    requires
        f.layout_wf(),
        f.unit_ok(unit_shift),
        maxu <= f.top_units(unit_shift),
    ensures
        0 <= f.first_exp(maxu, unit_shift) <= f.max_valid_biased_exp,
        f.step_shift(f.first_exp(maxu, unit_shift), unit_shift) >= 0,
        round_half_up(maxu, f.step_shift(f.first_exp(maxu, unit_shift), unit_shift) as nat)
            <= f.mantissa_values,
        round_half_up(maxu, f.step_shift(f.first_exp(maxu, unit_shift), unit_shift) as nat)
            == f.mantissa_values ==> f.first_exp(maxu, unit_shift) < f.max_valid_biased_exp,
        0 <= f.shared_exp(maxu, unit_shift) <= f.max_valid_biased_exp,
        f.step_shift(f.shared_exp(maxu, unit_shift), unit_shift) >= 0,
        f.mantissa_of(maxu, maxu, unit_shift) <= f.max_mantissa,
        f.shared_exp(maxu, unit_shift) == f.first_exp(maxu, unit_shift) || f.shared_exp(
            maxu,
            unit_shift,
        ) == f.first_exp(maxu, unit_shift) + 1,
{
    lemma_format_bounds(f);
    let mb = f.mantissa_bits as nat;
    let bias = f.exp_bias as int;
    let e0 = f.first_exp(maxu, unit_shift);
    let t0 = f.step_shift(e0, unit_shift);
    let tm = f.step_shift(f.max_valid_biased_exp as int, unit_shift);
    assert(tm >= 0);
    // top < 2^(tm + mb)
    lemma_pow2_pos(tm as nat);
    lemma_mul_strict_inequality(
        f.max_mantissa as int,
        f.mantissa_values as int,
        pow2(tm as nat) as int,
    );
    lemma_pow2_adds(mb, tm as nat);
    assert(maxu < pow2(mb + tm as nat));
    lemma_bit_len_below(maxu, mb + tm as nat);
    assert(e0 <= f.max_valid_biased_exp);
    assert(t0 >= 0);
    // the largest channel lies below 2^(t0 + mb)
    if maxu > 0 {
        lemma_bit_len_bounds(maxu);
        let l = bit_len(maxu);
        if l < (t0 + mb) as nat {
            lemma_pow2_strictly_increases(l, (t0 + mb) as nat);
        }
    } else {
        lemma_pow2_pos((t0 + mb) as nat);
    }
    assert(maxu < pow2((t0 + mb) as nat));
    assert((t0 as nat) + mb == (t0 + mb) as nat);
    lemma_round_half_up_bound(maxu, t0 as nat, mb);
    let m0 = round_half_up(maxu, t0 as nat);
    if m0 == f.mantissa_values {
        if e0 == f.max_valid_biased_exp {
            // at the top exponent the range limit keeps the rounding in range
            lemma_round_half_up_monotonic(maxu, f.top_units(unit_shift), tm as nat);
            lemma_round_half_up_exact(f.max_mantissa as nat, tm as nat);
            assert(false);
        }
        assert(((t0 + 1) as nat) + (mb - 1) as nat == (t0 + mb) as nat);
        lemma_round_half_up_bound(maxu, (t0 + 1) as nat, (mb - 1) as nat);
        lemma_pow2_unfold(mb);
        lemma_pow2_pos((mb - 1) as nat);
    }
}

/// What one `f32` channel contributes before clamping: NaN counts as zero,
/// and so does any negative value in an unsigned format; an infinity counts as
/// `limit`.
pub open spec fn f32_channel_units(b: u32, signed: bool, limit: nat) -> nat {
    if f32_is_nan(b) || (!signed && f32_sign(b)) {
        0
    } else if f32_is_inf(b) {
        limit
    } else {
        f32_units(b)
    }
}

/// The `f64` counterpart of `f32_channel_units`.
pub open spec fn f64_channel_units(b: u64, signed: bool, limit: nat) -> nat {
    if f64_is_nan(b) || (!signed && f64_sign(b)) {
        0
    } else if f64_is_inf(b) {
        limit
    } else {
        f64_units(b)
    }
}

pub fn f32_channel(b: u32, signed: bool, limit: Magnitude) -> (m: Magnitude)
    requires
        limit.wf(),
    ensures
        m.wf(),
        m.units() == f32_channel_units(b, signed, limit.units()),
{
    let e: u32 = (b >> 23u32) & 0xffu32;
    let f: u32 = b & 0x7fffffu32;
    if e == 0xff && f != 0 {
        proof {
            lemma_mul_basics(pow2(0) as int);
        }
        Magnitude::zero()
    } else if !signed && (b >> 31u32) == 1 {
        Magnitude::zero()
    } else if e == 0xff {
        limit
    } else {
        f32_magnitude(b)
    }
}

pub fn f64_channel(b: u64, signed: bool, limit: Magnitude) -> (m: Magnitude)
    requires
        limit.wf(),
    ensures
        m.wf(),
        m.units() == f64_channel_units(b, signed, limit.units()),
{
    let e: u64 = (b >> 52u64) & 0x7ffu64;
    let f: u64 = b & 0xfffffffffffffu64;
    if e == 0x7ff && f != 0 {
        Magnitude::zero()
    } else if !signed && (b >> 63u64) == 1 {
        Magnitude::zero()
    } else if e == 0x7ff {
        limit
    } else {
        f64_magnitude(b)
    }
}

fn clamp_mag(c: Magnitude, limit: Magnitude) -> (r: Magnitude)
    requires
        c.wf(),
        limit.wf(),
    ensures
        r.wf(),
        r.units() == clamp_units(c.units(), limit.units()),
{
    if mag_le(c, limit) {
        c
    } else {
        limit
    }
}

impl SharedExponentFormat {
    /// Chooses the shared exponent for a largest channel of `maxmag`.
    pub fn select_exponent(&self, maxmag: Magnitude, unit_shift: u32) -> (r: u32)
        requires
            self.layout_wf(),
            self.unit_ok(unit_shift as nat),
            maxmag.wf(),
            maxmag.units() <= self.top_units(unit_shift as nat),
        ensures
            r == self.shared_exp(maxmag.units(), unit_shift as nat),
            r <= self.max_valid_biased_exp,
    {
        proof {
            lemma_format_bounds(*self);
            lemma_shared_exp_fits(*self, maxmag.units(), unit_shift as nat);
        }
        let bias: i64 = self.exp_bias as i64;
        let e0: i64 = if maxmag.sig == 0 {
            proof {
                lemma_mul_basics(pow2(maxmag.shift as nat) as int);
            }
            0
        } else {
            proof {
                lemma_units_bit_len(maxmag);
            }
            let lg: i64 = bit_length(maxmag.sig) as i64 + maxmag.shift as i64 - 1
                - unit_shift as i64;
            if lg < -bias - 1 {
                0
            } else {
                lg + 1 + bias
            }
        };
        assert(e0 == self.first_exp(maxmag.units(), unit_shift as nat));
        let t0: i64 = e0 - bias - self.mantissa_bits as i64 + unit_shift as i64;
        let m0: u32 = quantize(maxmag, t0 as u32);
        if m0 as i64 == self.mantissa_values as i64 {
            (e0 + 1) as u32
        } else {
            e0 as u32
        }
    }

    /// Encodes three magnitudes: each is limited to `limit`, the shared
    /// exponent is chosen for the largest, and each is rounded half up to a
    /// mantissa at that exponent.
    pub fn encode_magnitudes(&self, c: [Magnitude; 3], limit: Magnitude, unit_shift: u32) -> (r: (
        [u32; 3],
        u32,
    ))
        requires
            self.layout_wf(),
            self.unit_ok(unit_shift as nat),
            c[0].wf(),
            c[1].wf(),
            c[2].wf(),
            limit.wf(),
            limit.units() <= self.top_units(unit_shift as nat),
        ensures
            ({
                let c0 = clamp_units(c[0].units(), limit.units());
                let c1 = clamp_units(c[1].units(), limit.units());
                let c2 = clamp_units(c[2].units(), limit.units());
                let mx = max3(c0, c1, c2);
                &&& r.1 == self.shared_exp(mx, unit_shift as nat)
                &&& r.1 <= self.max_valid_biased_exp
                &&& r.0[0] == self.mantissa_of(c0, mx, unit_shift as nat)
                &&& r.0[1] == self.mantissa_of(c1, mx, unit_shift as nat)
                &&& r.0[2] == self.mantissa_of(c2, mx, unit_shift as nat)
                &&& r.0[0] <= self.max_mantissa
                &&& r.0[1] <= self.max_mantissa
                &&& r.0[2] <= self.max_mantissa
            }),
            (r.1 as int, r.0[0] as nat, r.0[1] as nat, r.0[2] as nat) == self.encoding(
                c[0].units(),
                c[1].units(),
                c[2].units(),
                limit.units(),
                unit_shift as nat,
            ),
    {
        let c0 = clamp_mag(c[0], limit);
        let c1 = clamp_mag(c[1], limit);
        let c2 = clamp_mag(c[2], limit);
        let m01 = if mag_le(c1, c0) {
            c0
        } else {
            c1
        };
        let mx = if mag_le(c2, m01) {
            m01
        } else {
            c2
        };
        let ghost u = unit_shift as nat;
        assert(mx.units() == max3(c0.units(), c1.units(), c2.units()));
        let e = self.select_exponent(mx, unit_shift);
        proof {
            lemma_format_bounds(*self);
            lemma_shared_exp_fits(*self, mx.units(), u);
        }
        let t: u32 = (e as i64 - self.exp_bias as i64 - self.mantissa_bits as i64
            + unit_shift as i64) as u32;
        let ghost ts = t as nat;
        proof {
            lemma_round_half_up_monotonic(c0.units(), mx.units(), ts);
            lemma_round_half_up_monotonic(c1.units(), mx.units(), ts);
            lemma_round_half_up_monotonic(c2.units(), mx.units(), ts);
        }
        let m0 = quantize(c0, t);
        let m1 = quantize(c1, t);
        let m2 = quantize(c2, t);
        ([m0, m1, m2], e)
    }
}

impl SharedExponentFormat {
    /// Derives a format's constants from its exponent and mantissa widths.
    pub fn new(exponent_bits: u8, mantissa_bits: u8) -> (r: Self)
        requires
            1 <= exponent_bits <= 7,
            1 <= mantissa_bits <= 24,
            exponent_bits * mantissa_bits <= 133,
        ensures
            r.wf(),
            r.exponent_bits == exponent_bits,
            r.mantissa_bits == mantissa_bits,
    {
        proof {
            lemma2_to64();
            lemma_u32_shl_is_mul(1, exponent_bits as u32);
            lemma_u32_shl_is_mul(1, mantissa_bits as u32);
            if exponent_bits < 7 {
                lemma_pow2_strictly_increases(exponent_bits as nat, 7);
            }
            if mantissa_bits < 24 {
                lemma_pow2_strictly_increases(mantissa_bits as nat, 24);
            }
            lemma_pow2_unfold(exponent_bits as nat);
            lemma_pow2_pos((exponent_bits - 1) as nat);
        }
        let max_valid_biased_exp: i32 = ((1u32 << (exponent_bits as u32)) - 1) as i32;
        let exp_bias: i32 = max_valid_biased_exp / 2;
        let mantissa_values: i32 = (1u32 << (mantissa_bits as u32)) as i32;
        let max_mantissa: i32 = mantissa_values - 1;
        let max_exp: i32 = max_valid_biased_exp - exp_bias;
        SharedExponentFormat {
            exponent_bits,
            mantissa_bits,
            max_valid_biased_exp,
            exp_bias,
            mantissa_values,
            max_mantissa,
            max_exp,
        }
    }

    /// The largest representable value, `max_mantissa / mantissa_values *
    /// 2^max_exp`, in units of `2^-149`.
    pub open spec fn max_units(&self) -> nat {
        self.top_units(149)
    }

    /// What an `f32` channel becomes before quantization: NaN and negative
    /// values become zero, and everything is limited to the largest
    /// representable value.
    pub open spec fn clamped_units(&self, b: u32) -> nat {
        clamp_units(f32_channel_units(b, false, self.max_units()), self.max_units())
    }

    fn limit(&self) -> (r: Magnitude)
        requires
            self.wf(),
        ensures
            r.wf(),
            r.units() == self.max_units(),
    {
        proof {
            lemma_format_bounds(*self);
        }
        self.top(149)
    }

    /// The largest representable value as an `f32` bit pattern.
    pub fn max_value(&self) -> (r: u32)
        requires
            self.wf(),
        ensures
            !f32_sign(r),
            f32_is_finite(r),
            f32_units(r) == self.max_units(),
    {
        proof {
            lemma_format_bounds(*self);
        }
        self.mantissa_to_f32(false, self.max_mantissa as u32, self.max_valid_biased_exp as u32)
    }

    /// The `f32` with value `(-1)^neg * m * 2^(e - bias - mantissa_bits)`.
    pub fn mantissa_to_f32(&self, neg: bool, m: u32, e: u32) -> (r: u32)
        requires
            self.layout_wf(),
            m <= self.max_mantissa,
            e <= self.max_valid_biased_exp,
        ensures
            f32_sign(r) == neg,
            f32_is_finite(r),
            f32_units(r) == m * pow2(self.step_shift(e as int, 149) as nat),
    {
        proof {
            lemma_format_bounds(*self);
            if m > 0 {
                lemma_bit_len_below(m as nat, self.mantissa_bits as nat);
                lemma_bit_len_bounds(m as nat);
            }
        }
        let d: i32 = e as i32 - self.exp_bias - self.mantissa_bits as i32;
        f32_from_parts(neg, m, d)
    }

    /// The `f64` with value `(-1)^neg * m * 2^(e - bias - mantissa_bits)`.
    pub fn mantissa_to_f64(&self, neg: bool, m: u32, e: u32) -> (r: u64)
        requires
            self.layout_wf(),
            m <= self.max_mantissa,
            e <= self.max_valid_biased_exp,
        ensures
            f64_sign(r) == neg,
            f64_is_finite(r),
            f64_units(r) == m * pow2(self.step_shift(e as int, 1074) as nat),
    {
        proof {
            lemma_format_bounds(*self);
            if m > 0 {
                lemma_bit_len_below(m as nat, self.mantissa_bits as nat);
                lemma_bit_len_bounds(m as nat);
            }
        }
        let d: i32 = e as i32 - self.exp_bias - self.mantissa_bits as i32;
        f64_from_parts(neg, m as u64, d)
    }

    /// The shared exponent for a largest channel `maxrgb` (an `f32` bit
    /// pattern), with the exponent of its quantization step: the step is
    /// `2^r.0`.
    pub fn get_exp(&self, maxrgb: u32) -> (r: (i32, u8))
        requires
            self.wf(),
        ensures
            r.1 == self.shared_exp(self.clamped_units(maxrgb), 149),
            r.1 <= self.max_valid_biased_exp,
            r.0 == r.1 - self.exp_bias - self.mantissa_bits,
    {
        let limit = self.limit();
        let c = clamp_mag(f32_channel(maxrgb, false, limit), limit);
        let e = self.select_exponent(c, 149);
        proof {
            lemma_format_bounds(*self);
        }
        (e as i32 - self.exp_bias - self.mantissa_bits as i32, e as u8)
    }

    /// Rounds the `f32` channel `v`, limited to the representable range, half up to a
    /// multiple of the step `2^denom`; saturates at `u32::MAX`.
    pub fn norm(&self, denom: i32, v: u32) -> (r: u32)
        requires
            self.wf(),
            -149 <= denom <= 4000,
        ensures
            r == if round_half_up(self.clamped_units(v), (denom + 149) as nat) <= u32::MAX {
                round_half_up(self.clamped_units(v), (denom + 149) as nat)
            } else {
                u32::MAX as nat
            },
    {
        let limit = self.limit();
        let c = clamp_mag(f32_channel(v, false, limit), limit);
        quantize(c, (denom + 149) as u32)
    }

    /// The `f32` value of mantissa `v` at shared exponent `exp_shared`.
    pub fn apply_exp(&self, v: u32, exp_shared: u8) -> (r: u32)
        requires
            self.wf(),
            v <= self.max_mantissa,
            exp_shared <= self.max_valid_biased_exp,
        ensures
            !f32_sign(r),
            f32_is_finite(r),
            f32_units(r) == v * pow2(self.step_shift(exp_shared as int, 149) as nat),
    {
        self.mantissa_to_f32(false, v, exp_shared as u32)
    }

    /// Encodes three `f32` channels (bit patterns) to three mantissas and a
    /// shared exponent.
    pub fn encode3(&self, v: [u32; 3]) -> (r: ([u32; 3], u8))
        requires
            self.wf(),
        ensures
            ({
                let c0 = self.clamped_units(v[0]);
                let c1 = self.clamped_units(v[1]);
                let c2 = self.clamped_units(v[2]);
                let mx = max3(c0, c1, c2);
                &&& r.1 == self.shared_exp(mx, 149)
                &&& r.1 <= self.max_valid_biased_exp
                &&& r.0[0] == self.mantissa_of(c0, mx, 149)
                &&& r.0[1] == self.mantissa_of(c1, mx, 149)
                &&& r.0[2] == self.mantissa_of(c2, mx, 149)
                &&& r.0[0] <= self.max_mantissa
                &&& r.0[1] <= self.max_mantissa
                &&& r.0[2] <= self.max_mantissa
            }),
            self.encode3_result(v, r),
    {
        let limit = self.limit();
        let c = [
            f32_channel(v[0], false, limit),
            f32_channel(v[1], false, limit),
            f32_channel(v[2], false, limit),
        ];
        let (m, e) = self.encode_magnitudes(c, limit, 149);
        proof {
            lemma_format_bounds(*self);
        }
        (m, e as u8)
    }

    /// Decodes three mantissas at a shared exponent to `f32` bit patterns.
    pub fn decode3(&self, enc: [u32; 3], exp_shared: u8) -> (r: [u32; 3])
        requires
            self.wf(),
            enc[0] <= self.max_mantissa,
            enc[1] <= self.max_mantissa,
            enc[2] <= self.max_mantissa,
            exp_shared <= self.max_valid_biased_exp,
        ensures
            forall|i: int|
                0 <= i < 3 ==> !f32_sign(#[trigger] r[i]) && f32_is_finite(r[i]) && f32_units(r[i])
                    == enc[i] * pow2(self.step_shift(exp_shared as int, 149) as nat),
            self.decode3_result(enc, exp_shared, r),
    {
        [
            self.apply_exp(enc[0], exp_shared),
            self.apply_exp(enc[1], exp_shared),
            self.apply_exp(enc[2], exp_shared),
        ]
    }
}

impl SharedExponentFormat {
    /// The largest encodable magnitude, in units of `2^-unit_shift`.
    pub fn top(&self, unit_shift: u32) -> (r: Magnitude)
        requires
            self.layout_wf(),
            self.unit_ok(unit_shift as nat),
        ensures
            r.wf(),
            r.units() == self.top_units(unit_shift as nat),
    {
        proof {
            lemma_format_bounds(*self);
        }
        let t: u32 = (self.max_valid_biased_exp as i64 - self.exp_bias as i64
            - self.mantissa_bits as i64 + unit_shift as i64) as u32;
        Magnitude { sig: self.max_mantissa as u64, shift: t }
    }
}

/// Round-trip error: each channel, limited to `limit`, comes back within half
/// a quantization step at the shared exponent, and its mantissa fits its field.
pub proof fn lemma_encoding_error(
    f: SharedExponentFormat,
    u0: nat,
    u1: nat,
    u2: nat,
    limit: nat,
    unit_shift: nat,
)
    requires
        f.layout_wf(),
        f.unit_ok(unit_shift),
        limit <= f.top_units(unit_shift),
    ensures
        ({
            let (e, m0, m1, m2) = f.encoding(u0, u1, u2, limit, unit_shift);
            let t = f.step_shift(e, unit_shift);
            let p = pow2(t as nat);
            let c0 = clamp_units(u0, limit);
            let c1 = clamp_units(u1, limit);
            let c2 = clamp_units(u2, limit);
            &&& 0 <= e <= f.max_valid_biased_exp
            &&& t >= 0
            &&& m0 <= f.max_mantissa && m1 <= f.max_mantissa && m2 <= f.max_mantissa
            &&& c0 <= m0 * p + p / 2 && m0 * p <= c0 + p / 2
            &&& c1 <= m1 * p + p / 2 && m1 * p <= c1 + p / 2
            &&& c2 <= m2 * p + p / 2 && m2 * p <= c2 + p / 2
        }),
{
    let c0 = clamp_units(u0, limit);
    let c1 = clamp_units(u1, limit);
    let c2 = clamp_units(u2, limit);
    let mx = max3(c0, c1, c2);
    lemma_shared_exp_fits(f, mx, unit_shift);
    let t = f.step_shift(f.shared_exp(mx, unit_shift), unit_shift) as nat;
    lemma_round_half_up_monotonic(c0, mx, t);
    lemma_round_half_up_monotonic(c1, mx, t);
    lemma_round_half_up_monotonic(c2, mx, t);
    lemma_round_half_up_error(c0, t);
    lemma_round_half_up_error(c1, t);
    lemma_round_half_up_error(c2, t);
}

/// The quantization step grows with the largest channel: scaled by
/// `2^mantissa_bits` it is at most four times that channel, or `2^(-bias)`
/// (in units, `2^(unit_shift - bias)`) at the lowest exponent.
proof fn lemma_step_scales(f: SharedExponentFormat, mx: nat, unit_shift: nat)
    requires
        f.layout_wf(),
        f.unit_ok(unit_shift),
        mx <= f.top_units(unit_shift),
    ensures
        ({
            let t = f.step_shift(f.shared_exp(mx, unit_shift), unit_shift);
            &&& t >= 0
            &&& pow2(f.mantissa_bits as nat) * pow2(t as nat) <= 4 * mx || pow2(
                f.mantissa_bits as nat,
            ) * pow2(t as nat) == pow2((unit_shift - f.exp_bias) as nat)
        }),
{
    lemma_format_bounds(f);
    lemma_shared_exp_fits(f, mx, unit_shift);
    let mb = f.mantissa_bits as nat;
    let bias = f.exp_bias as int;
    let e0 = f.first_exp(mx, unit_shift);
    let t0 = f.step_shift(e0, unit_shift);
    let low = mx == 0 || bit_len(mx) - 1 - unit_shift < -bias - 1;
    let carry = round_half_up(mx, t0 as nat) == f.mantissa_values;
    if low {
        assert(t0 == unit_shift - bias - mb);
        lemma_pow2_adds(mb, t0 as nat);
        assert(mb + t0 as nat == (unit_shift - bias) as nat);
        if carry {
            // mx < 2^(t0 + mb - 1), which cannot round up to 2^mb
            if mx > 0 {
                lemma_bit_len_bounds(mx);
                if bit_len(mx) < (t0 + mb - 1) as nat {
                    lemma_pow2_strictly_increases(bit_len(mx), (t0 + mb - 1) as nat);
                }
            } else {
                lemma_pow2_pos((t0 + mb - 1) as nat);
            }
            assert((t0 as nat) + (mb - 1) as nat == (t0 + mb - 1) as nat);
            lemma_round_half_up_bound(mx, t0 as nat, (mb - 1) as nat);
            lemma_pow2_strictly_increases((mb - 1) as nat, mb);
            assert(false);
        }
    } else {
        lemma_bit_len_bounds(mx);
        let l = bit_len(mx);
        assert(t0 == l - mb);
        lemma_pow2_adds(mb, t0 as nat);
        assert(mb + t0 as nat == l);
        lemma_pow2_unfold(l);
        if carry {
            lemma_pow2_adds(mb, (t0 + 1) as nat);
            assert(mb + (t0 + 1) as nat == l + 1);
            lemma_pow2_unfold(l + 1);
        }
    }
}

proof fn lemma_scale_error(c: int, mp: int, h: int, q: int)
    requires
        q >= 0,
        c <= mp + h,
        mp <= c + h,
    ensures
        q * c <= q * mp + q * h,
        q * mp <= q * c + q * h,
{
    assert(q * c <= q * mp + q * h && q * mp <= q * c + q * h) by (nonlinear_arith)
        requires
            q >= 0,
            c <= mp + h,
            mp <= c + h,
    ;
}

/// Round-trip error scales with magnitude: with every channel, once limited,
/// at most `mx`, each comes back within `2^-mantissa_bits * max(2 mx,
/// 2^-bias)`, the second term counted in units as `2^(unit_shift - bias)`.
pub proof fn lemma_error_scales(
    f: SharedExponentFormat,
    u0: nat,
    u1: nat,
    u2: nat,
    limit: nat,
    unit_shift: nat,
)
    requires
        f.layout_wf(),
        f.unit_ok(unit_shift),
        limit <= f.top_units(unit_shift),
    ensures
        ({
            let (e, m0, m1, m2) = f.encoding(u0, u1, u2, limit, unit_shift);
            let p = pow2(f.step_shift(e, unit_shift) as nat);
            let c0 = clamp_units(u0, limit);
            let c1 = clamp_units(u1, limit);
            let c2 = clamp_units(u2, limit);
            let mx = max3(c0, c1, c2);
            let q = pow2(f.mantissa_bits as nat);
            let bound = if 2 * mx >= pow2((unit_shift - f.exp_bias) as nat) {
                2 * mx
            } else {
                pow2((unit_shift - f.exp_bias) as nat)
            };
            &&& q * c0 <= q * (m0 * p) + bound && q * (m0 * p) <= q * c0 + bound
            &&& q * c1 <= q * (m1 * p) + bound && q * (m1 * p) <= q * c1 + bound
            &&& q * c2 <= q * (m2 * p) + bound && q * (m2 * p) <= q * c2 + bound
        }),
{
    let c0 = clamp_units(u0, limit);
    let c1 = clamp_units(u1, limit);
    let c2 = clamp_units(u2, limit);
    let mx = max3(c0, c1, c2);
    lemma_encoding_error(f, u0, u1, u2, limit, unit_shift);
    lemma_step_scales(f, mx, unit_shift);
    let (e, m0, m1, m2) = f.encoding(u0, u1, u2, limit, unit_shift);
    let p = pow2(f.step_shift(e, unit_shift) as nat) as int;
    let q = pow2(f.mantissa_bits as nat) as int;
    let low = pow2((unit_shift - f.exp_bias) as nat) as int;
    let bound: int = if 2 * mx >= low {
        (2 * mx) as int
    } else {
        low
    };
    // q * (p / 2) <= (q * p) / 2 <= bound
    assert(q * (p / 2) <= bound) by (nonlinear_arith)
        requires
            q >= 0,
            p >= 0,
            q * p <= 4 * mx || q * p == low,
            bound >= 2 * mx,
            bound >= low,
            low >= 0,
    ;
    lemma_pow2_pos(f.mantissa_bits as nat);
    lemma_scale_error(c0 as int, (m0 * p) as int, p / 2, q);
    lemma_scale_error(c1 as int, (m1 * p) as int, p / 2, q);
    lemma_scale_error(c2 as int, (m2 * p) as int, p / 2, q);
}

/// Three zero magnitudes encode to exponent zero and zero mantissas.
pub proof fn lemma_encoding_zero(f: SharedExponentFormat, limit: nat, unit_shift: nat)
    requires
        f.layout_wf(),
        f.unit_ok(unit_shift),
    ensures
        f.encoding(0, 0, 0, limit, unit_shift) == (0int, 0nat, 0nat, 0nat),
{
    lemma_format_bounds(f);
    let t = f.step_shift(0, unit_shift) as nat;
    lemma_round_half_up_exact(0, t);
    lemma_pow2_pos(f.mantissa_bits as nat);
}

/// Saturation: three channels at the top of the range encode to the top
/// exponent with every mantissa bit set, which decodes to the top exactly.
pub proof fn lemma_encoding_top(f: SharedExponentFormat, unit_shift: nat)
    requires
        f.layout_wf(),
        f.unit_ok(unit_shift),
    ensures
        ({
            let top = f.top_units(unit_shift);
            let (e, m0, m1, m2) = f.encoding(top, top, top, top, unit_shift);
            &&& e == f.max_valid_biased_exp
            &&& m0 == f.max_mantissa && m1 == f.max_mantissa && m2 == f.max_mantissa
            &&& m0 * pow2(f.step_shift(e, unit_shift) as nat) == top
        }),
{
    lemma_format_bounds(f);
    let top = f.top_units(unit_shift);
    let mb = f.mantissa_bits as nat;
    let tm = f.step_shift(f.max_valid_biased_exp as int, unit_shift);
    lemma_shared_exp_fits(f, top, unit_shift);
    // top has exactly tm + mb significant bits
    lemma_pow2_unfold(mb);
    lemma_pow2_pos((mb - 1) as nat);
    assert(pow2((mb - 1) as nat) <= f.max_mantissa);
    lemma_bit_len_unique(f.max_mantissa as nat, mb);
    lemma_mul_strictly_positive(f.max_mantissa as int, 1);
    assert(f.max_mantissa as nat > 0);
    lemma_bit_len_shift(f.max_mantissa as nat, tm as nat);
    assert(f.first_exp(top, unit_shift) == f.max_valid_biased_exp);
    lemma_round_half_up_exact(f.max_mantissa as nat, tm as nat);
}

/// Exact representables: three channels of value one (`2^unit_shift` units)
/// come back unchanged whenever one lies within `limit`.
pub proof fn lemma_encoding_one(f: SharedExponentFormat, limit: nat, unit_shift: nat)
    requires
        f.layout_wf(),
        f.unit_ok(unit_shift),
        pow2(unit_shift) <= limit <= f.top_units(unit_shift),
    ensures
        ({
            let one = pow2(unit_shift);
            let (e, m0, m1, m2) = f.encoding(one, one, one, limit, unit_shift);
            &&& e == f.exp_bias + 1
            &&& m0 == m1 == m2 == pow2((f.mantissa_bits - 1) as nat)
            &&& m0 * pow2(f.step_shift(e, unit_shift) as nat) == one
        }),
{
    lemma_format_bounds(f);
    let one = pow2(unit_shift);
    let mb = f.mantissa_bits as nat;
    lemma2_to64();
    lemma_mul_basics(one as int);
    lemma_bit_len_shift(1, unit_shift);
    assert(bit_len(1) == 1) by {
        assert(bit_len(0) == 0);
    }
    let t0 = f.step_shift(f.exp_bias + 1, unit_shift);
    assert(f.first_exp(one, unit_shift) == f.exp_bias + 1);
    assert(t0 == unit_shift + 1 - mb);
    lemma_pow2_adds((mb - 1) as nat, t0 as nat);
    assert((mb - 1) as nat + t0 as nat == unit_shift);
    lemma_round_half_up_exact(pow2((mb - 1) as nat), t0 as nat);
    lemma_pow2_unfold(mb);
    lemma_pow2_pos((mb - 1) as nat);
}

impl SharedExponentFormat {
    /// What `encode3` promises of its result `r` for channels `v`.
    pub open spec fn encode3_result(&self, v: [u32; 3], r: ([u32; 3], u8)) -> bool {
        let c0 = self.clamped_units(v[0]);
        let c1 = self.clamped_units(v[1]);
        let c2 = self.clamped_units(v[2]);
        let mx = max3(c0, c1, c2);
        &&& r.1 == self.shared_exp(mx, 149)
        &&& r.0[0] == self.mantissa_of(c0, mx, 149)
        &&& r.0[1] == self.mantissa_of(c1, mx, 149)
        &&& r.0[2] == self.mantissa_of(c2, mx, 149)
    }

    /// What `decode3` promises of its result `r` for mantissas `enc` at
    /// exponent `exp_shared`.
    pub open spec fn decode3_result(&self, enc: [u32; 3], exp_shared: u8, r: [u32; 3]) -> bool {
        forall|i: int|
            0 <= i < 3 ==> !f32_sign(#[trigger] r[i]) && f32_is_finite(r[i]) && f32_units(r[i])
                == enc[i] * pow2(self.step_shift(exp_shared as int, 149) as nat)
    }
}

/// Determinism of encoding: two results that both meet `encode3`'s contract
/// for the same input are identical.
pub proof fn lemma_encode3_deterministic(
    f: SharedExponentFormat,
    v: [u32; 3],
    r1: ([u32; 3], u8),
    r2: ([u32; 3], u8),
)
    requires
        f.encode3_result(v, r1),
        f.encode3_result(v, r2),
    ensures
        r1 == r2,
{
    assert(r1.0 =~= r2.0);
}

/// Determinism of decoding: two results that both meet `decode3`'s contract
/// for the same input are identical, bit for bit.
pub proof fn lemma_decode3_deterministic(
    f: SharedExponentFormat,
    enc: [u32; 3],
    exp_shared: u8,
    r1: [u32; 3],
    r2: [u32; 3],
)
    requires
        f.decode3_result(enc, exp_shared, r1),
        f.decode3_result(enc, exp_shared, r2),
    ensures
        r1 == r2,
{
    assert forall|i: int| 0 <= i < 3 implies r1[i] == r2[i] by {
        lemma_f32_determined(r1[i], r2[i]);
    }
    assert(r1 =~= r2);
}

/// One (`2^unit_shift` units) lies within the range of any layout whose top
/// exponent is positive.
pub proof fn lemma_one_in_range(f: SharedExponentFormat, unit_shift: nat)
    requires
        f.layout_wf(),
        f.unit_ok(unit_shift),
        f.max_exp >= 1,
    ensures
        pow2(unit_shift) <= f.top_units(unit_shift),
{
    lemma_format_bounds(f);
    let mb = f.mantissa_bits as nat;
    let tm = f.step_shift(f.max_valid_biased_exp as int, unit_shift) as nat;
    lemma_pow2_unfold(mb);
    lemma_pow2_pos((mb - 1) as nat);
    lemma_pow2_pos(tm);
    lemma_mul_inequality(pow2((mb - 1) as nat) as int, f.max_mantissa as int, pow2(tm) as int);
    lemma_pow2_adds((mb - 1) as nat, tm);
    if unit_shift < (mb - 1) as nat + tm {
        lemma_pow2_strictly_increases(unit_shift, (mb - 1) as nat + tm);
    }
}

} // verus!
