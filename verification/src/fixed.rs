//! Fixed-point arithmetic shared by the simulation and the laboratory.
//!
//! Probabilities, alive ratios and smoothing weights are numerators over
//! `PROB_ONE`; per-cell running statistics (blended breed age and velocity)
//! are numerators over the same scale, kept inside `[-STAT_CAP, STAT_CAP]`
//! by saturation.
use vstd::prelude::*;

verus! {

/// Fixed-point representation of the probability / ratio 1.0.
pub const PROB_ONE: u32 = 0x100_0000;

/// A probability or ratio in `[0, 1]`, held as a numerator over `PROB_ONE`.
pub type Probability = u32;

/// Saturation bound for per-cell blended statistics.
pub const STAT_CAP: i64 = 0x100_0000_0000_0000;

/// Truncated (round toward zero) division, the integer analogue of what
/// float division produces once the quotient is truncated.
pub open spec fn tdiv(a: int, b: int) -> int {
    if a >= 0 {
        a / b
    } else {
        -((-a) / b)
    }
}

/// `a + b` clamped into `[-STAT_CAP, STAT_CAP]`.
pub open spec fn spec_sat_add(a: int, b: int) -> int {
    if a + b > STAT_CAP {
        STAT_CAP as int
    } else if a + b < -STAT_CAP {
        -(STAT_CAP as int)
    } else {
        a + b
    }
}

/// The exponential blend `0.2 * new + 0.8 * old` in fixed point:
/// `(new + 4 * old) / 5`, rounded toward zero.
pub open spec fn spec_blend(new: int, old: int) -> int {
    tdiv(new + 4 * old, 5)
}

/// Number of binary digits of `n`.
pub open spec fn bit_len(n: nat) -> nat
    decreases n,
{
    if n == 0 {
        0
    } else {
        1 + bit_len(n / 2)
    }
}

/// Truncated division of `a` by a positive divisor.
pub fn tdiv_i64(a: i64, b: i64) -> (r: i64)
    requires
        0 < b,
        i64::MIN < a,
    ensures
        r == tdiv(a as int, b as int),
        0 <= a ==> 0 <= r <= a,
        a < 0 ==> a <= r <= 0,
{
    if a >= 0 {
        let q: u64 = (a as u64) / (b as u64);
        proof {
            assert(q == a as int / b as int) by (nonlinear_arith)
                requires
                    q == (a as u64) as int / (b as u64) as int,
                    (a as u64) as int == a as int,
                    (b as u64) as int == b as int,
            {}
            assert(a as int / b as int <= a as int) by (nonlinear_arith)
                requires
                    0 <= a as int,
                    0 < b as int,
            {}
            assert(0 <= a as int / b as int);
        }
        q as i64
    } else {
        let m: i64 = -a;
        let q: u64 = (m as u64) / (b as u64);
        proof {
            assert(q == m as int / b as int) by (nonlinear_arith)
                requires
                    q == (m as u64) as int / (b as u64) as int,
                    (m as u64) as int == m as int,
                    (b as u64) as int == b as int,
            {}
            assert(m as int / b as int <= m as int) by (nonlinear_arith)
                requires
                    0 <= m as int,
                    0 < b as int,
            {}
            assert(0 <= m as int / b as int);
        }
        -(q as i64)
    }
}

/// Saturating addition into `[-STAT_CAP, STAT_CAP]`.
pub fn sat_add(a: i64, b: i64) -> (r: i64)
    requires
        -16 * STAT_CAP <= a <= 16 * STAT_CAP,
        -16 * STAT_CAP <= b <= 16 * STAT_CAP,
    ensures
        r == spec_sat_add(a as int, b as int),
        -STAT_CAP <= r <= STAT_CAP,
{
    let s: i64 = a + b;
    if s > STAT_CAP {
        STAT_CAP
    } else if s < -STAT_CAP {
        -STAT_CAP
    } else {
        s
    }
}

/// The blend `0.2 * new + 0.8 * old` over capped fixed-point values.
pub fn blend(new: i64, old: i64) -> (r: i64)
    requires
        -STAT_CAP <= new <= STAT_CAP,
        -STAT_CAP <= old <= STAT_CAP,
    ensures
        r == spec_blend(new as int, old as int),
        -STAT_CAP <= r <= STAT_CAP,
{
    let s: i64 = new + 4 * old;
    let r = tdiv_i64(s, 5);
    proof {
        if s >= 0 {
            assert(s as int / 5 <= 5 * STAT_CAP / 5) by (nonlinear_arith)
                requires
                    0 <= s as int <= 5 * STAT_CAP,
            {}
            assert(5 * STAT_CAP as int / 5 == STAT_CAP as int);
        } else {
            assert((-s) as int / 5 <= 5 * STAT_CAP / 5) by (nonlinear_arith)
                requires
                    0 < (-s) as int <= 5 * STAT_CAP,
            {}
            assert(5 * STAT_CAP as int / 5 == STAT_CAP as int);
        }
    }
    r
}

/// Number of binary digits of `n`: `bit_len(0) == 0`, `bit_len(5) == 3`.
pub fn bit_len_usize(n: usize) -> (r: usize)
    ensures
        r == bit_len(n as nat),
        r <= 64,
{
    let mut rest: usize = n;
    let mut count: usize = 0;
    proof {
        vstd::arithmetic::power2::lemma2_to64_rest();
        lemma_bit_len_below_pow2(n as nat, 64);
    }
    while rest > 0
        invariant
            bit_len(n as nat) == count + bit_len(rest as nat),
            count + bit_len(rest as nat) <= 64,
        decreases rest,
    {
        rest = rest / 2;
        count = count + 1;
    }
    count
}

/// A number below `2^k` has at most `k` binary digits.
pub proof fn lemma_bit_len_below_pow2(n: nat, k: nat)
    requires
        n < vstd::arithmetic::power2::pow2(k),
    ensures
        bit_len(n) <= k,
    decreases n,
{
    if n > 0 {
        assert(k > 0) by {
            if k == 0 {
                assert(vstd::arithmetic::power2::pow2(0) == 1) by {
                    vstd::arithmetic::power2::lemma2_to64();
                }
            }
        }
        assert(vstd::arithmetic::power2::pow2(k) == 2 * vstd::arithmetic::power2::pow2(
            (k - 1) as nat,
        )) by {
            vstd::arithmetic::power2::lemma_pow2_unfold(k);
        }
        lemma_bit_len_below_pow2(n / 2, (k - 1) as nat);
    }
}

} // verus!
