//! Exact non-negative dyadic magnitudes and round-half-up quantization.
use vstd::arithmetic::div_mod::*;
use vstd::arithmetic::mul::*;
use vstd::arithmetic::power2::*;
use vstd::bits::*;
use vstd::prelude::*;

verus! {

/// Number of significant bits of `x`: zero for zero, otherwise one more than
/// the position of the highest set bit.
pub open spec fn bit_len(x: nat) -> nat
    decreases x,
{
    if x == 0 {
        0
    } else {
        1 + bit_len(x / 2)
    }
}

/// `x` lies between the two powers of two around its highest set bit.
pub proof fn lemma_bit_len_bounds(x: nat)
    requires
        x > 0,
    ensures
        bit_len(x) >= 1,
        pow2((bit_len(x) - 1) as nat) <= x < pow2(bit_len(x)),
    decreases x,
{
    if x == 1 {
        assert(bit_len(0) == 0);
        assert(pow2(0) == 1 && pow2(1) == 2) by {
            lemma2_to64();
        }
    } else {
        let y = x / 2;
        lemma_bit_len_bounds(y);
        lemma_pow2_unfold(bit_len(y));
        lemma_pow2_unfold(bit_len(x));
    }
}

/// A value bracketed by `2^(n-1)` and `2^n` has exactly `n` significant bits.
pub proof fn lemma_bit_len_unique(x: nat, n: nat)
    requires
        n >= 1,
        pow2((n - 1) as nat) <= x < pow2(n),
    ensures
        bit_len(x) == n,
{
    lemma_pow2_pos((n - 1) as nat);
    lemma_bit_len_bounds(x);
    if bit_len(x) < n {
        if bit_len(x) < (n - 1) as nat {
            lemma_pow2_strictly_increases(bit_len(x), (n - 1) as nat);
        }
    } else if bit_len(x) > n {
        lemma_pow2_strictly_increases(n, (bit_len(x) - 1) as nat);
        if (bit_len(x) - 1) as nat > n {
        }
    }
}

/// Values below `2^n` have at most `n` significant bits.
pub proof fn lemma_bit_len_below(x: nat, n: nat)
    requires
        x < pow2(n),
    ensures
        bit_len(x) <= n,
{
    if x > 0 {
        lemma_bit_len_bounds(x);
        if bit_len(x) > n {
            if (bit_len(x) - 1) as nat > n {
                lemma_pow2_strictly_increases(n, (bit_len(x) - 1) as nat);
            }
        }
    }
}

/// Scaling by `2^k` adds `k` significant bits.
pub proof fn lemma_bit_len_shift(s: nat, k: nat)
    requires
        s > 0,
    ensures
        bit_len(s * pow2(k)) == bit_len(s) + k,
{
    lemma_bit_len_bounds(s);
    let l = bit_len(s);
    lemma_pow2_pos(k);
    lemma_mul_inequality(pow2((l - 1) as nat) as int, s as int, pow2(k) as int);
    lemma_mul_strict_inequality(s as int, pow2(l) as int, pow2(k) as int);
    lemma_pow2_adds((l - 1) as nat, k);
    lemma_pow2_adds(l, k);
    assert((l - 1) as nat + k == (l + k - 1) as nat);
    lemma_bit_len_unique(s * pow2(k), l + k);
}

/// Significant bits of a machine word.
pub fn bit_length(x: u64) -> (r: u32)
    ensures
        r as nat == bit_len(x as nat),
        r <= 64,
{
    proof {
        lemma2_to64();
        lemma_bit_len_below(x as nat, 64);
    }
    let mut v: u64 = x;
    let mut n: u32 = 0;
    while v > 0
        invariant
            n as nat + bit_len(v as nat) == bit_len(x as nat),
            bit_len(x as nat) <= 64,
        decreases v,
    {
        v = v / 2;
        n = n + 1;
    }
    n
}

/// Round `x / 2^t` to the nearest integer, halves rounding up.
pub open spec fn round_half_up(x: nat, t: nat) -> nat {
    (x + pow2(t) / 2) / pow2(t)
}

/// Rounding half up never moves a value by more than half a step:
/// `|round_half_up(x, t) * 2^t - x| <= 2^t / 2`.
pub proof fn lemma_round_half_up_error(x: nat, t: nat)
    ensures
        x <= round_half_up(x, t) * pow2(t) + pow2(t) / 2,
        round_half_up(x, t) * pow2(t) <= x + pow2(t) / 2,
{
    let p = pow2(t) as int;
    lemma_pow2_pos(t);
    let h = p / 2;
    let q = (x + h) / p;
    lemma_fundamental_div_mod(x + h, p);
    lemma_mod_division_less_than_divisor(x + h, p);
    lemma_mul_is_commutative(p, q);
    if t == 0 {
        assert(pow2(0) == 1) by {
            lemma2_to64();
        }
    } else {
        lemma_pow2_unfold(t);
    }
}

/// Rounding is monotonic in the rounded value.
pub proof fn lemma_round_half_up_monotonic(x: nat, y: nat, t: nat)
    requires
        x <= y,
    ensures
        round_half_up(x, t) <= round_half_up(y, t),
{
    lemma_pow2_pos(t);
    lemma_div_is_ordered((x + pow2(t) / 2) as int, (y + pow2(t) / 2) as int, pow2(t) as int);
}

/// An exact multiple of the step rounds to itself.
pub proof fn lemma_round_half_up_exact(q: nat, t: nat)
    ensures
        round_half_up(q * pow2(t), t) == q,
{
    lemma_pow2_pos(t);
    let p = pow2(t) as int;
    if t == 0 {
        assert(pow2(0) == 1) by {
            lemma2_to64();
        }
    } else {
        lemma_pow2_unfold(t);
    }
    lemma_mul_is_commutative(q as int, p);
    lemma_div_multiples_vanish_fancy(q as int, p / 2, p);
}

/// Values below `2^(t + n)` round to at most `2^n`.
pub proof fn lemma_round_half_up_bound(x: nat, t: nat, n: nat)
    requires
        x < pow2(t + n),
    ensures
        round_half_up(x, t) <= pow2(n),
{
    lemma_pow2_adds(t, n);
    lemma_round_half_up_monotonic(x, (pow2(n) * pow2(t)) as nat, t);
    lemma_mul_is_commutative(pow2(n) as int, pow2(t) as int);
    lemma_round_half_up_exact(pow2(n), t);
}

/// Dropping common low zero bits does not change the rounding:
/// `round_half_up(s * 2^k, k + d) == round_half_up(s, d)` for `d >= 1`.
pub proof fn lemma_round_half_up_scaled(s: nat, k: nat, d: nat)
    requires
        d >= 1,
    ensures
        round_half_up(s * pow2(k), k + d) == round_half_up(s, d),
{
    lemma_pow2_pos(k);
    lemma_pow2_pos(d);
    lemma_pow2_unfold(d);
    lemma_pow2_unfold(k + d);
    lemma_pow2_adds(k, d);
    lemma_pow2_adds(k, (d - 1) as nat);
    assert(k + (d - 1) as nat == (k + d - 1) as nat);
    let pk = pow2(k) as int;
    let half = pow2((d - 1) as nat) as int;
    assert(s * pk + pk * half == pk * (s + half)) by (nonlinear_arith);
    lemma_div_denominator(pk * (s + half), pk, pow2(d) as int);
    lemma_div_multiples_vanish(s + half, pk);
}

/// A non-negative value `sig * 2^shift`, counted in units of some fixed power
/// of two (the smallest subnormal of the floating-point type it came from).
#[derive(Clone, Copy, Debug)]
pub struct Magnitude {
    pub sig: u64,
    pub shift: u32,
}

impl Magnitude {
    pub open spec fn units(&self) -> nat {
        self.sig as nat * pow2(self.shift as nat)
    }

    /// The exponents this library produces stay well inside `u32`.
    pub open spec fn wf(&self) -> bool {
        self.shift <= 4096
    }

    pub fn zero() -> (r: Magnitude)
        ensures
            r.units() == 0,
            r.wf(),
    {
        Magnitude { sig: 0, shift: 0 }
    }
}

/// `sig * 2^shift` has `bit_len(sig) + shift` significant bits.
pub proof fn lemma_units_bit_len(m: Magnitude)
    requires
        m.sig > 0,
    ensures
        m.units() > 0,
        bit_len(m.units()) == bit_len(m.sig as nat) + m.shift,
        pow2((bit_len(m.units()) - 1) as nat) <= m.units() < pow2(bit_len(m.units())),
{
    lemma_pow2_pos(m.shift as nat);
    lemma_mul_strictly_positive(m.sig as int, pow2(m.shift as nat) as int);
    lemma_bit_len_shift(m.sig as nat, m.shift as nat);
    lemma_bit_len_bounds(m.units());
}

/// Compares two magnitudes exactly.
pub fn mag_le(a: Magnitude, b: Magnitude) -> (r: bool)
    requires
        a.wf(),
        b.wf(),
    ensures
        r == (a.units() <= b.units()),
{
    if a.sig == 0 {
        proof {
            lemma_mul_basics(pow2(a.shift as nat) as int);
        }
        return true;
    }
    if b.sig == 0 {
        proof {
            lemma_mul_basics(pow2(b.shift as nat) as int);
            lemma_units_bit_len(a);
        }
        return false;
    }
    let la: u64 = bit_length(a.sig) as u64 + a.shift as u64;
    let lb: u64 = bit_length(b.sig) as u64 + b.shift as u64;
    proof {
        lemma_units_bit_len(a);
        lemma_units_bit_len(b);
    }
    if la != lb {
        proof {
            if la < lb {
                if la < (lb - 1) as nat {
                    lemma_pow2_strictly_increases(la as nat, (lb - 1) as nat);
                }
            } else {
                if lb < (la - 1) as nat {
                    lemma_pow2_strictly_increases(lb as nat, (la - 1) as nat);
                }
            }
        }
        return la < lb;
    }
    proof {
        lemma_bit_len_bounds(a.sig as nat);
        lemma_bit_len_bounds(b.sig as nat);
        lemma2_to64();
        lemma_bit_len_below(a.sig as nat, 64);
        lemma_bit_len_below(b.sig as nat, 64);
    }
    if a.shift >= b.shift {
        let d: u32 = a.shift - b.shift;
        let ghost bla = bit_len(a.sig as nat);
        proof {
            lemma_pow2_pos(d as nat);
            lemma_mul_strict_inequality(a.sig as int, pow2(bla) as int, pow2(d as nat) as int);
            lemma_pow2_adds(bla, d as nat);
            if bla + d < 64 {
                lemma_pow2_strictly_increases(bla + d as nat, 64);
            }
            lemma_u64_shl_is_mul(a.sig, d as u64);
            lemma_pow2_adds(d as nat, b.shift as nat);
            lemma_mul_is_associative(a.sig as int, pow2(d as nat) as int, pow2(b.shift as nat) as int);
            lemma_pow2_pos(b.shift as nat);
            let x = a.sig as int * pow2(d as nat);
            if x <= b.sig {
                lemma_mul_inequality(x, b.sig as int, pow2(b.shift as nat) as int);
            } else {
                lemma_mul_strict_inequality(b.sig as int, x, pow2(b.shift as nat) as int);
            }
        }
        (a.sig << (d as u64)) <= b.sig
    } else {
        let d: u32 = b.shift - a.shift;
        let ghost blb = bit_len(b.sig as nat);
        proof {
            lemma_pow2_pos(d as nat);
            lemma_mul_strict_inequality(b.sig as int, pow2(blb) as int, pow2(d as nat) as int);
            lemma_pow2_adds(blb, d as nat);
            if blb + d < 64 {
                lemma_pow2_strictly_increases(blb + d as nat, 64);
            }
            lemma_u64_shl_is_mul(b.sig, d as u64);
            lemma_pow2_adds(d as nat, a.shift as nat);
            lemma_mul_is_associative(b.sig as int, pow2(d as nat) as int, pow2(a.shift as nat) as int);
            lemma_pow2_pos(a.shift as nat);
            let y = b.sig as int * pow2(d as nat);
            if a.sig <= y {
                lemma_mul_inequality(a.sig as int, y, pow2(a.shift as nat) as int);
            } else {
                lemma_mul_strict_inequality(y, a.sig as int, pow2(a.shift as nat) as int);
            }
        }
        a.sig <= (b.sig << (d as u64))
    }
}

/// Quantizes `c` against the step `2^t`: `round_half_up(c / 2^t)`, saturated
/// to `u32::MAX` as a float-to-integer cast would be.
pub fn quantize(c: Magnitude, t: u32) -> (r: u32)
    requires
        c.wf(),
        t <= 8192,
    ensures
        r == if round_half_up(c.units(), t as nat) <= u32::MAX {
            round_half_up(c.units(), t as nat)
        } else {
            u32::MAX as nat
        },
{
    let ghost u = c.units();
    proof {
        lemma_pow2_pos(t as nat);
        lemma2_to64();
    }
    if c.sig == 0 {
        proof {
            lemma_mul_basics(pow2(c.shift as nat) as int);
            lemma_round_half_up_exact(0, t as nat);
        }
        return 0;
    }
    let l: u64 = bit_length(c.sig) as u64 + c.shift as u64;
    proof {
        lemma_units_bit_len(c);
    }
    if l > t as u64 + 33 {
        proof {
            // u >= 2^(l-1) >= 2^(t+33), which rounds to at least 2^33
            lemma_pow2_unfold(33);
            lemma_pow2_adds(33, t as nat);
            if ((t + 33) as nat) < (l - 1) as nat {
                lemma_pow2_strictly_increases((t + 33) as nat, (l - 1) as nat);
            }
            lemma_mul_is_commutative(pow2(33) as int, pow2(t as nat) as int);
            lemma_round_half_up_monotonic((pow2(33) * pow2(t as nat)) as nat, u, t as nat);
            lemma_round_half_up_exact(pow2(33), t as nat);
        }
        return u32::MAX;
    }
    proof {
        // u < 2^l <= 2^(t+33), so the rounded value is at most 2^33
        if l < (t + 33) as nat {
            lemma_pow2_strictly_increases(l as nat, (t + 33) as nat);
        }
        lemma_round_half_up_bound(u, t as nat, 33);
    }
    let q: u64;
    if c.shift >= t {
        let d: u32 = c.shift - t;
        proof {
            lemma_pow2_adds(d as nat, t as nat);
            assert(d as nat + t as nat == c.shift as nat);
            lemma_mul_is_associative(c.sig as int, pow2(d as nat) as int, pow2(t as nat) as int);
            lemma_round_half_up_exact((c.sig * pow2(d as nat)) as nat, t as nat);
            lemma_pow2_pos(d as nat);
            lemma_mul_increases(c.sig as int, pow2(d as nat) as int);
            lemma_mul_is_commutative(pow2(d as nat) as int, c.sig as int);
            if d > 33 {
                lemma_pow2_strictly_increases(33, d as nat);
            }
            lemma_pow2_unfold(33);
            lemma_u64_shl_is_mul(c.sig, d as u64);
        }
        q = c.sig << (d as u64);
    } else {
        let d: u32 = t - c.shift;
        proof {
            assert(c.shift as nat + d as nat == t as nat);
            lemma_round_half_up_scaled(c.sig as nat, c.shift as nat, d as nat);
        }
        if d >= 65 {
            proof {
                lemma_pow2_unfold(d as nat);
                if 64 < (d - 1) as nat {
                    lemma_pow2_strictly_increases(64, (d - 1) as nat);
                }
                lemma_div_of0(pow2(d as nat) as int);
                lemma_small_div_converse(0, 1);
                assert(c.sig + pow2(d as nat) / 2 < pow2(d as nat));
                vstd::arithmetic::div_mod::lemma_basic_div(
                    (c.sig + pow2(d as nat) / 2) as int,
                    pow2(d as nat) as int,
                );
            }
            q = 0;
        } else {
            let half: u64 = 1u64 << ((d - 1) as u64);
            proof {
                lemma_u64_pow2_no_overflow((d - 1) as nat);
                lemma_u64_shl_is_mul(1, (d - 1) as u64);
                lemma_pow2_unfold(d as nat);
                lemma_u128_shr_is_div((c.sig as u128 + half as u128) as u128, d as u128);
                lemma_pow2_unfold(33);
            }
            let num: u128 = c.sig as u128 + half as u128;
            let shifted: u128 = num >> (d as u128);
            assert(shifted <= pow2(33));
            q = shifted as u64;
        }
    }
    if q > u32::MAX as u64 {
        u32::MAX
    } else {
        q as u32
    }
}

} // verus!
