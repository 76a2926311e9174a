//! Fixed-point arithmetic for the dense estimate.
//!
//! The dense estimator needs `ln` and a bias constant, but the whole library
//! works in exact integer arithmetic, so both are computed in fixed point:
//! `log2` with a 32-bit fractional part by repeated squaring, `ln 2` and the
//! bias factor as rational constants.  While any register is still zero and
//! the linear-counting value is at most `5m/2`, the estimate is linear
//! counting `m * ln(m / zeros)`; beyond that it is the bias-corrected
//! harmonic-mean estimate `alpha(m) * m^2 / sum`.
use vstd::prelude::*;

verus! {

use vstd::arithmetic::div_mod::lemma_div_denominator;
use vstd::arithmetic::div_mod::lemma_div_is_ordered;
use vstd::arithmetic::div_mod::lemma_div_is_ordered_by_denominator;
use vstd::arithmetic::div_mod::lemma_fundamental_div_mod;
use vstd::arithmetic::mul::lemma_mul_inequality;
use vstd::arithmetic::mul::lemma_mul_is_commutative;
use vstd::arithmetic::power2::lemma2_to64;
use vstd::arithmetic::power2::lemma2_to64_rest;
use vstd::arithmetic::power2::lemma_pow2_adds;
use vstd::arithmetic::power2::lemma_pow2_pos;
use vstd::arithmetic::power2::lemma_pow2_strictly_increases;
use vstd::arithmetic::power2::pow2;
use vstd::bits::lemma_u64_shl_is_mul;

/// `ln 2` scaled by `2^32`, rounded to nearest.
pub const LN2_Q32: u64 = 2977044472;

/// `2^32` as a `u128` divisor.
pub const TWO32_U128: u128 = 0x1_0000_0000;

/// `2^33` as a `u64` bound.
pub const TWO33_U64: u64 = 0x2_0000_0000;

/// `2^63` as a `u128` factor.
pub const TWO63_U128: u128 = 0x8000_0000_0000_0000;

/// `2^64` as a `u128` divisor.
pub const TWO64_U128: u128 = 0x1_0000_0000_0000_0000;

/// Floor of the base-2 logarithm.
pub open spec fn spec_floor_log2(z: nat) -> nat
    decreases z,
{
    if z < 2 {
        0
    } else {
        1 + spec_floor_log2(z / 2)
    }
}

/// Fractional bits of the base-2 logarithm of `x / 2^32`, computed by `n`
/// squaring steps; `x` ranges over `[2^32, 2^33)`.
pub open spec fn spec_log2_frac(x: nat, n: nat) -> nat
    decreases n,
{
    if n == 0 {
        0
    } else {
        let sq = x * x / pow2(32);
        if sq >= pow2(33) {
            pow2((n - 1) as nat) + spec_log2_frac(sq / 2, (n - 1) as nat)
        } else {
            spec_log2_frac(sq, (n - 1) as nat)
        }
    }
}

/// Base-2 logarithm of `z` in Q32 fixed point.
pub open spec fn spec_log2_q32(z: nat) -> nat {
    let k = spec_floor_log2(z);
    k * pow2(32) + spec_log2_frac(z * pow2((32 - k) as nat), 32)
}

/// The characteristic property of the floor of the logarithm.
pub proof fn lemma_floor_log2(z: nat)
    requires
        z >= 1,
    ensures
        pow2(spec_floor_log2(z)) <= z < pow2(spec_floor_log2(z) + 1),
    decreases z,
{
    lemma2_to64();
    if z < 2 {
    } else {
        lemma_floor_log2(z / 2);
        let f = spec_floor_log2(z / 2);
        lemma_pow2_adds(f, 1);
        lemma_pow2_adds(f + 1, 1);
        lemma_fundamental_div_mod(z as int, 2);
    }
}

/// The fractional bits stay below `2^n`.
pub proof fn lemma_log2_frac_bound(x: nat, n: nat)
    ensures
        spec_log2_frac(x, n) < pow2(n),
    decreases n,
{
    lemma_pow2_pos(n);
    if n == 0 {
        lemma2_to64();
    } else {
        let sq = x * x / pow2(32);
        lemma_log2_frac_bound(sq / 2, (n - 1) as nat);
        lemma_log2_frac_bound(sq, (n - 1) as nat);
        lemma_pow2_adds((n - 1) as nat, 1);
        lemma2_to64();
    }
}

/// An exact power of two has no fractional bits.
pub proof fn lemma_log2_frac_of_one(n: nat)
    ensures
        spec_log2_frac(pow2(32), n) == 0,
    decreases n,
{
    if n > 0 {
        lemma2_to64();
        lemma2_to64_rest();
        assert(pow2(32) * pow2(32) == pow2(64)) by {
            lemma_pow2_adds(32, 32);
        }
        assert(pow2(64) / pow2(32) == pow2(32)) by {
            vstd::arithmetic::power2::lemma_pow2_subtracts(32, 64);
        }
        lemma_log2_frac_of_one((n - 1) as nat);
    }
}

/// For `1 <= z <= 2^p` the Q32 logarithm is at most `p * 2^32`.
pub proof fn lemma_log2_q32_le(z: nat, p: nat)
    requires
        1 <= z <= pow2(p),
        p <= 31,
    ensures
        spec_log2_q32(z) <= p * pow2(32),
{
    let k = spec_floor_log2(z);
    lemma_floor_log2(z);
    if z == pow2(p) {
        assert(k == p) by {
            if k < p {
                if k + 1 < p {
                    lemma_pow2_strictly_increases(k + 1, p);
                }
                assert(pow2(k + 1) <= pow2(p));
                assert(false);
            }
            if k > p {
                lemma_pow2_strictly_increases(p, k);
                assert(false);
            }
        }
        assert(z * pow2((32 - k) as nat) == pow2(32)) by {
            lemma_pow2_adds(p, (32 - p) as nat);
        }
        lemma_log2_frac_of_one(32);
    } else {
        assert(k < p) by {
            if k >= p {
                lemma_pow2_strictly_increases(p, k);
                if k > p {
                    lemma_pow2_strictly_increases(p, k);
                }
                assert(pow2(p) <= pow2(k));
            }
        }
        lemma_log2_frac_bound(z * pow2((32 - k) as nat), 32);
        assert(k * pow2(32) + pow2(32) <= p * pow2(32)) by {
            lemma_mul_inequality((k + 1) as int, p as int, pow2(32) as int);
            assert((k + 1) * pow2(32) == k * pow2(32) + pow2(32)) by (nonlinear_arith);
        }
    }
}

/// Compute `spec_log2_q32(z)` exactly.
pub fn log2_q32(z: u64) -> (r: u64)
    requires
        1 <= z < 0x1_0000_0000u64,
    ensures
        r == spec_log2_q32(z as nat),
        r < 0x20_0000_0000u64,
{
    // Integer part: halve until one remains.
    proof {
        lemma2_to64();
    }
    let mut k: u64 = 0;
    let mut t: u64 = z;
    while t >= 2
        invariant
            1 <= t,
            t == z as nat / pow2(k as nat),
            spec_floor_log2(z as nat) == k + spec_floor_log2(t as nat),
            k <= 31,
            z < 0x1_0000_0000u64,
        decreases t,
    {
        proof {
            lemma2_to64();
            lemma2_to64_rest();
            lemma_pow2_pos(k as nat);
            lemma_pow2_adds(k as nat, 1);
            lemma_div_denominator(z as int, pow2(k as nat) as int, 2);
            if k >= 31 {
                lemma_fundamental_div_mod(z as int, pow2(31) as int);
                vstd::arithmetic::div_mod::lemma_mod_bound(z as int, pow2(31) as int);
                assert(pow2(31) * 2 <= pow2(31) * t) by {
                    lemma_mul_inequality(2, t as int, pow2(31) as int);
                    lemma_mul_is_commutative(2, pow2(31) as int);
                    lemma_mul_is_commutative(t as int, pow2(31) as int);
                }
                assert(false);
            }
        }
        t = t / 2;
        k = k + 1;
    }
    proof {
        lemma_floor_log2(z as nat);
        assert(spec_floor_log2(z as nat) == k);
        lemma_pow2_pos((32 - k) as nat);
        lemma2_to64();
        lemma2_to64_rest();
        assert((z as nat) * pow2((32 - k) as nat) < pow2(33)) by {
            lemma_floor_log2(z as nat);
            vstd::arithmetic::mul::lemma_mul_strict_inequality(
                z as int,
                pow2(k as nat + 1) as int,
                pow2((32 - k) as nat) as int,
            );
            lemma_mul_is_commutative(z as int, pow2((32 - k) as nat) as int);
            lemma_mul_is_commutative(pow2(k as nat + 1) as int, pow2((32 - k) as nat) as int);
            lemma_pow2_adds(k as nat + 1, (32 - k) as nat);
        }
        assert(pow2(32) <= (z as nat) * pow2((32 - k) as nat)) by {
            lemma_mul_inequality(pow2(k as nat) as int, z as int, pow2((32 - k) as nat) as int);
            lemma_pow2_adds(k as nat, (32 - k) as nat);
        }
        lemma_u64_shl_is_mul(z, (32 - k) as u64);
    }
    let x0: u64 = z << (32 - k);
    let mut x: u64 = x0;
    let mut frac: u64 = 0;
    let mut j: u64 = 0;
    while j < 32
        invariant
            j <= 32,
            pow2(32) <= x < pow2(33),
            frac < pow2(j as nat),
            spec_log2_frac(x0 as nat, 32) == frac * pow2((32 - j) as nat) + spec_log2_frac(
                x as nat,
                (32 - j) as nat,
            ),
        decreases 32 - j,
    {
        proof {
            lemma2_to64();
            lemma2_to64_rest();
            assert((x as nat) * (x as nat) < pow2(66)) by {
                lemma_mul_inequality(x as int, pow2(33) as int - 1, x as int);
                lemma_mul_inequality(x as int, pow2(33) as int - 1, pow2(33) as int - 1);
                lemma_mul_is_commutative(x as int, pow2(33) as int - 1);
                lemma_pow2_adds(33, 33);
            }
            assert(pow2(64) <= (x as nat) * (x as nat)) by {
                lemma_mul_inequality(pow2(32) as int, x as int, x as int);
                lemma_mul_inequality(pow2(32) as int, x as int, pow2(32) as int);
                lemma_mul_is_commutative(x as int, pow2(32) as int);
                lemma_pow2_adds(32, 32);
            }
            assert(pow2(66) == 0x4_0000_0000_0000_0000u128) by {
                lemma_pow2_adds(64, 2);
            }
            lemma_div_is_ordered(pow2(64) as int, ((x as nat) * (x as nat)) as int, pow2(32) as int);
            lemma_div_is_ordered(
                ((x as nat) * (x as nat)) as int,
                pow2(66) as int - 1,
                pow2(32) as int,
            );
            assert(((pow2(66) - 1) as int / pow2(32) as int) < pow2(34)) by {
                lemma_pow2_adds(32, 34);
                lemma_fundamental_div_mod((pow2(66) - 1) as int, pow2(32) as int);
            }
            assert(pow2(64) / pow2(32) == pow2(32)) by {
                vstd::arithmetic::power2::lemma_pow2_subtracts(32, 64);
            }
        }
        let sq: u128 = (x as u128) * (x as u128);
        let x2: u64 = (sq / TWO32_U128) as u64;
        proof {
            assert((sq as nat) / (TWO32_U128 as nat) == (x as nat) * (x as nat) / pow2(32));
            lemma_pow2_adds(31, 1);
            lemma_pow2_adds((31 - j) as nat, 1);
            lemma_pow2_adds(j as nat, 1);
        }
        proof {
            let n = (32 - j) as nat;
            let q = pow2((n - 1) as nat);
            assert(pow2(n) == 2 * q) by {
                lemma_pow2_adds((n - 1) as nat, 1);
                lemma2_to64();
            }
            assert(frac * (2 * q) + q == (2 * frac + 1) * q) by (nonlinear_arith);
            assert(frac * (2 * q) == (2 * frac) * q) by (nonlinear_arith);
        }
        if x2 >= TWO33_U64 {
            proof {
                lemma_div_is_ordered(pow2(33) as int, x2 as int, 2);
                lemma_div_is_ordered(x2 as int, pow2(34) as int - 1, 2);
            }
            frac = frac * 2 + 1;
            x = x2 / 2;
        } else {
            frac = frac * 2;
            x = x2;
        }
        j = j + 1;
    }
    proof {
        lemma2_to64();
        assert(spec_log2_frac(x as nat, 0) == 0);
        assert(pow2(0) == 1);
        assert(frac * pow2((32 - j) as nat) == frac) by (nonlinear_arith)
            requires
                j == 32,
                pow2((32 - j) as nat) == 1,
        ;
        assert(frac == spec_log2_frac(x0 as nat, 32));
        lemma_u64_shl_is_mul(k, 32);
        lemma_mul_is_commutative(k as int, pow2(32) as int);
        assert((k as nat) * pow2(32) <= 31 * 0x1_0000_0000) by {
            lemma_mul_inequality(k as int, 31, pow2(32) as int);
            lemma2_to64();
        }
        lemma2_to64();
    }
    (k << 32u64) + frac
}

/// Linear-counting value in whole items: `m * ln(m / z)` rounded to nearest,
/// computed as `m * ln2 * (p * 2^32 - log2(z)) / 2^64`.
pub open spec fn spec_lc_estimate(p: nat, z: nat) -> nat {
    (pow2(p) * LN2_Q32 * (p * pow2(32) - spec_log2_q32(z)) + pow2(63)) as nat / pow2(64)
}

/// Numerator of the bias factor `alpha(m)`.
pub open spec fn spec_alpha_num(m: nat) -> nat {
    if m == 16 {
        673
    } else if m == 32 {
        697
    } else if m == 64 {
        709
    } else {
        7213 * m
    }
}

/// Denominator of the bias factor `alpha(m)`.
pub open spec fn spec_alpha_den(m: nat) -> nat {
    if m == 16 || m == 32 || m == 64 {
        1000
    } else {
        10000 * m + 10790
    }
}

/// Bias-corrected harmonic-mean estimate `alpha(m) * m^2 / (sum / 2^63)`,
/// rounded to nearest, saturating at `usize::MAX`.
pub open spec fn spec_raw_estimate(p: nat, sum: nat) -> nat {
    let m = pow2(p);
    let t1 = m * m * pow2(63) / sum;
    let full = (t1 * spec_alpha_num(m) + spec_alpha_den(m) / 2) / spec_alpha_den(m);
    if full > usize::MAX {
        usize::MAX as nat
    } else {
        full
    }
}

/// Whether the estimate comes from linear counting: some register is
/// still zero and the linear-counting value is at most `5m/2`.
pub open spec fn spec_lc_regime(p: nat, zeros: nat) -> bool {
    zeros > 0 && 2 * spec_lc_estimate(p, zeros) <= 5 * pow2(p)
}

/// The dense estimate: linear counting in its regime, the bias-corrected
/// harmonic mean otherwise.
pub open spec fn spec_dense_estimate(p: nat, zeros: nat, sum: nat) -> nat {
    if spec_lc_regime(p, zeros) {
        spec_lc_estimate(p, zeros)
    } else {
        spec_raw_estimate(p, sum)
    }
}

/// Compute the dense estimate from the zero-register count and the harmonic
/// sum scaled by `2^63`.
pub fn dense_estimate<const P: usize, const W: usize>(zeros: u32, sum: u128) -> (r: usize)
    requires
        crate::encode::valid_params(P, W),
        (zeros as nat) <= pow2(P as nat),
        pow2(P as nat) <= sum,
    ensures
        r == spec_dense_estimate(P as nat, zeros as nat, sum as nat),
{
    proof {
        lemma2_to64();
        lemma2_to64_rest();
        if (P as nat) < 18 {
            lemma_pow2_strictly_increases(P as nat, 18);
        }
        lemma_u64_shl_is_mul(1u64, P as u64);
    }
    let m: u64 = 1u64 << (P as u64);
    if zeros > 0 {
        let lg: u64 = log2_q32(zeros as u64);
        proof {
            lemma_log2_q32_le(zeros as nat, P as nat);
            lemma_u64_shl_is_mul(P as u64, 32);
            lemma_mul_is_commutative(P as int, pow2(32) as int);
            assert((P as nat) * pow2(32) <= 18 * 0x1_0000_0000) by {
                lemma_mul_inequality(P as int, 18, pow2(32) as int);
            }
        }
        let target: u64 = (P as u64) << 32u64;
        let diff: u64 = target - lg;
        proof {
            assert((m as nat) * (LN2_Q32 as nat) <= pow2(18) * (LN2_Q32 as nat)) by {
                lemma_mul_inequality(m as int, pow2(18) as int, LN2_Q32 as int);
                lemma_mul_is_commutative(m as int, LN2_Q32 as int);
                lemma_mul_is_commutative(pow2(18) as int, LN2_Q32 as int);
            }
            assert((m as nat) * (LN2_Q32 as nat) * (diff as nat) <= pow2(18) * (LN2_Q32 as nat) * (18
                * 0x1_0000_0000)) by {
                lemma_mul_inequality(
                    ((m as nat) * (LN2_Q32 as nat)) as int,
                    (pow2(18) * (LN2_Q32 as nat)) as int,
                    diff as int,
                );
                lemma_mul_inequality(
                    diff as int,
                    (18 * 0x1_0000_0000) as int,
                    (pow2(18) * (LN2_Q32 as nat)) as int,
                );
                lemma_mul_is_commutative((pow2(18) * (LN2_Q32 as nat)) as int, diff as int);
                lemma_mul_is_commutative(
                    (pow2(18) * (LN2_Q32 as nat)) as int,
                    (18 * 0x1_0000_0000) as int,
                );
            }
        }
        let prod: u128 = (m as u128) * (LN2_Q32 as u128) * (diff as u128);
        let lc128: u128 = (prod + TWO63_U128) / TWO64_U128;
        proof {
            lemma_div_is_ordered(
                (prod + TWO63_U128) as int,
                (pow2(18) * (LN2_Q32 as nat) * (18 * 0x1_0000_0000) + pow2(63)) as int,
                pow2(64) as int,
            );
            assert(pow2(18) * (LN2_Q32 as nat) == 0x2_C5C8_5FE0_0000u64 as nat);
            assert(((0x2_C5C8_5FE0_0000u64 as nat) * (18 * 0x1_0000_0000) + pow2(63)) / pow2(64)
                < 0x1_0000_0000);
        }
        let lc: u64 = lc128 as u64;
        if 2 * lc <= 5 * m {
            proof {
                assert(5 * m <= 5 * pow2(18));
            }
            return lc as usize;
        }
    }
    // Harmonic-mean branch.
    proof {
        assert((m as nat) * (m as nat) <= pow2(36)) by {
            lemma_mul_inequality(m as int, pow2(18) as int, m as int);
            lemma_mul_inequality(m as int, pow2(18) as int, pow2(18) as int);
            lemma_mul_is_commutative(m as int, pow2(18) as int);
            lemma_pow2_adds(18, 18);
        }
        assert(pow2(36) * pow2(63) == pow2(99)) by {
            lemma_pow2_adds(36, 63);
        }
        assert((m as nat) * (m as nat) * pow2(63) <= pow2(99)) by {
            lemma_mul_inequality(
                ((m as nat) * (m as nat)) as int,
                pow2(36) as int,
                pow2(63) as int,
            );
            lemma_mul_is_commutative(((m as nat) * (m as nat)) as int, pow2(63) as int);
            lemma_mul_is_commutative(pow2(36) as int, pow2(63) as int);
        }
        assert(pow2(99) == pow2(64) * pow2(35)) by {
            lemma_pow2_adds(64, 35);
        }
        assert(pow2(64) * pow2(35) <= u128::MAX);
    }
    let m2s: u128 = (m as u128) * (m as u128) * TWO63_U128;
    let t1: u128 = m2s / sum;
    proof {
        lemma_div_is_ordered_by_denominator(m2s as int, pow2(P as nat) as int, sum as int);
        assert((m2s as nat) == pow2((P + P + 63) as nat)) by {
            lemma_pow2_adds(P as nat, P as nat);
            lemma_pow2_adds((P + P) as nat, 63);
            vstd::arithmetic::mul::lemma_mul_is_associative(
                m as int,
                m as int,
                pow2(63) as int,
            );
        }
        assert(pow2((P + P + 63) as nat) / pow2(P as nat) == pow2((P + 63) as nat)) by {
            vstd::arithmetic::power2::lemma_pow2_subtracts(P as nat, (P + P + 63) as nat);
        }
        assert(pow2((P + 63) as nat) <= pow2(81)) by {
            if (P as nat) < 18 {
                lemma_pow2_strictly_increases((P + 63) as nat, 81);
            }
        }
        assert((t1 as nat) <= pow2(81));
    }
    let anum: u128;
    let aden: u128;
    if m == 16 {
        anum = 673;
        aden = 1000;
    } else if m == 32 {
        anum = 697;
        aden = 1000;
    } else if m == 64 {
        anum = 709;
        aden = 1000;
    } else {
        anum = 7213 * (m as u128);
        aden = 10000 * (m as u128) + 10790;
    }
    proof {
        assert((anum as nat) <= 7213 * pow2(18)) by {
            if m != 16 && m != 32 && m != 64 {
                lemma_mul_inequality(m as int, pow2(18) as int, 7213);
                lemma_mul_is_commutative(m as int, 7213);
                lemma_mul_is_commutative(pow2(18) as int, 7213);
            }
        }
        assert((t1 as nat) * (anum as nat) <= pow2(81) * (7213 * pow2(18))) by {
            lemma_mul_inequality(t1 as int, pow2(81) as int, anum as int);
            lemma_mul_inequality(anum as int, (7213 * pow2(18)) as int, pow2(81) as int);
            lemma_mul_is_commutative(pow2(81) as int, anum as int);
            lemma_mul_is_commutative(pow2(81) as int, (7213 * pow2(18)) as int);
        }
        assert(pow2(81) == pow2(64) * pow2(17)) by {
            lemma_pow2_adds(64, 17);
        }
        assert(pow2(64) * pow2(17) * (7213 * pow2(18)) + 10000 * pow2(18) + 10790 <= u128::MAX);
        assert(aden >= 1000);
    }
    let full: u128 = (t1 * anum + aden / 2) / aden;
    if full > usize::MAX as u128 {
        usize::MAX
    } else {
        full as usize
    }
}


/// The fractional bits are monotone in the normalised argument.
proof fn lemma_log2_frac_monotone(x: nat, y: nat, n: nat)
    requires
        pow2(32) <= x <= y,
        y < pow2(33),
    ensures
        spec_log2_frac(x, n) <= spec_log2_frac(y, n),
    decreases n,
{
    if n > 0 {
        lemma2_to64();
        lemma2_to64_rest();
        let x2 = x * x / pow2(32);
        let y2 = y * y / pow2(32);
        assert(x * x <= y * y) by (nonlinear_arith)
            requires
                0 <= x <= y,
        ;
        lemma_div_is_ordered((x * x) as int, (y * y) as int, pow2(32) as int);
        assert(pow2(64) <= x * x) by {
            lemma_mul_inequality(pow2(32) as int, x as int, x as int);
            lemma_mul_inequality(pow2(32) as int, x as int, pow2(32) as int);
            lemma_mul_is_commutative(x as int, pow2(32) as int);
            lemma_pow2_adds(32, 32);
        }
        lemma_div_is_ordered(pow2(64) as int, (x * x) as int, pow2(32) as int);
        assert(pow2(64) / pow2(32) == pow2(32)) by {
            vstd::arithmetic::power2::lemma_pow2_subtracts(32, 64);
        }
        assert(y * y < pow2(66)) by {
            lemma_mul_inequality(y as int, pow2(33) as int - 1, y as int);
            lemma_mul_inequality(y as int, pow2(33) as int - 1, pow2(33) as int - 1);
            lemma_mul_is_commutative(y as int, pow2(33) as int - 1);
            lemma_pow2_adds(33, 33);
        }
        lemma_div_is_ordered((y * y) as int, pow2(66) as int - 1, pow2(32) as int);
        assert(((pow2(66) - 1) as int / pow2(32) as int) < pow2(34)) by {
            lemma_pow2_adds(32, 34);
            lemma_fundamental_div_mod((pow2(66) - 1) as int, pow2(32) as int);
        }
        assert(pow2(66) == 0x4_0000_0000_0000_0000u128) by {
            lemma_pow2_adds(64, 2);
        }
        if x2 >= pow2(33) {
            // Both shift.
            lemma_div_is_ordered(x2 as int, y2 as int, 2);
            lemma_div_is_ordered(pow2(33) as int, x2 as int, 2);
            lemma_div_is_ordered(y2 as int, pow2(34) as int - 1, 2);
            lemma_log2_frac_monotone(x2 / 2, y2 / 2, (n - 1) as nat);
        } else if y2 >= pow2(33) {
            // Only the larger one shifts: its leading fraction bit wins.
            lemma_log2_frac_bound(x2, (n - 1) as nat);
        } else {
            lemma_log2_frac_monotone(x2, y2, (n - 1) as nat);
        }
    }
}

/// The floor of the logarithm is monotone.
proof fn lemma_floor_log2_monotone(x: nat, y: nat)
    requires
        x <= y,
    ensures
        spec_floor_log2(x) <= spec_floor_log2(y),
    decreases y,
{
    if x >= 2 {
        lemma_div_is_ordered(x as int, y as int, 2);
        lemma_floor_log2_monotone(x / 2, y / 2);
    }
}

/// The Q32 logarithm is monotone.
pub proof fn lemma_log2_q32_monotone(x: nat, y: nat)
    requires
        1 <= x <= y,
        y < pow2(32),
    ensures
        spec_log2_q32(x) <= spec_log2_q32(y),
{
    lemma2_to64();
    let kx = spec_floor_log2(x);
    let ky = spec_floor_log2(y);
    lemma_floor_log2(x);
    lemma_floor_log2(y);
    lemma_floor_log2_monotone(x, y);
    assert(ky <= 31) by {
        if ky >= 32 {
            if ky > 32 {
                lemma_pow2_strictly_increases(32, ky);
            }
            assert(pow2(32) <= pow2(ky));
            assert(false);
        }
    }
    let nx = x * pow2((32 - kx) as nat);
    let ny = y * pow2((32 - ky) as nat);
    assert(pow2(32) <= nx && nx < pow2(33)) by {
        lemma_norm_window(x, kx);
    }
    assert(pow2(32) <= ny && ny < pow2(33)) by {
        lemma_norm_window(y, ky);
    }
    if kx == ky {
        assert(nx <= ny) by {
            lemma_mul_inequality(x as int, y as int, pow2((32 - kx) as nat) as int);
            lemma_mul_is_commutative(x as int, pow2((32 - kx) as nat) as int);
            lemma_mul_is_commutative(y as int, pow2((32 - kx) as nat) as int);
        }
        lemma_log2_frac_monotone(nx, ny, 32);
    } else {
        lemma_log2_frac_bound(nx, 32);
        assert(kx * pow2(32) + pow2(32) <= ky * pow2(32)) by {
            lemma_mul_inequality((kx + 1) as int, ky as int, pow2(32) as int);
            assert((kx + 1) * pow2(32) == kx * pow2(32) + pow2(32)) by (nonlinear_arith);
        }
    }
}

/// The normalised argument lies in the Q32 window `[2^32, 2^33)`.
proof fn lemma_norm_window(z: nat, k: nat)
    requires
        1 <= z,
        k == spec_floor_log2(z),
        k <= 31,
    ensures
        pow2(32) <= z * pow2((32 - k) as nat),
        z * pow2((32 - k) as nat) < pow2(33),
{
    lemma_floor_log2(z);
    assert(pow2(32) <= z * pow2((32 - k) as nat)) by {
        lemma_mul_inequality(pow2(k) as int, z as int, pow2((32 - k) as nat) as int);
        lemma_pow2_adds(k, (32 - k) as nat);
    }
    assert(z * pow2((32 - k) as nat) < pow2(33)) by {
        lemma_pow2_pos((32 - k) as nat);
        vstd::arithmetic::mul::lemma_mul_strict_inequality(
            z as int,
            pow2(k + 1) as int,
            pow2((32 - k) as nat) as int,
        );
        lemma_mul_is_commutative(z as int, pow2((32 - k) as nat) as int);
        lemma_mul_is_commutative(pow2(k + 1) as int, pow2((32 - k) as nat) as int);
        lemma_pow2_adds(k + 1, (32 - k) as nat);
    }
}

/// Linear counting is antitone in the zero-register count.
pub proof fn lemma_lc_antitone(p: nat, z1: nat, z2: nat)
    requires
        4 <= p <= 18,
        1 <= z1 <= z2,
        z2 <= pow2(p),
    ensures
        spec_lc_estimate(p, z1) >= spec_lc_estimate(p, z2),
{
    lemma2_to64();
    assert(z2 < pow2(32)) by {
        if p < 32 {
            lemma_pow2_strictly_increases(p, 32);
        }
    }
    lemma_log2_q32_monotone(z1, z2);
    lemma_log2_q32_le(z1, p);
    lemma_log2_q32_le(z2, p);
    let d1 = (p * pow2(32) - spec_log2_q32(z1)) as nat;
    let d2 = (p * pow2(32) - spec_log2_q32(z2)) as nat;
    assert(d2 <= d1);
    assert(pow2(p) * LN2_Q32 * d2 <= pow2(p) * LN2_Q32 * d1) by {
        lemma_mul_inequality(d2 as int, d1 as int, (pow2(p) * LN2_Q32 as nat) as int);
        lemma_mul_is_commutative(d2 as int, (pow2(p) * LN2_Q32 as nat) as int);
        lemma_mul_is_commutative(d1 as int, (pow2(p) * LN2_Q32 as nat) as int);
    }
    lemma_div_is_ordered(
        (pow2(p) * LN2_Q32 as nat * d2 + pow2(63)) as int,
        (pow2(p) * LN2_Q32 as nat * d1 + pow2(63)) as int,
        pow2(64) as int,
    );
}

/// The harmonic-mean estimate is antitone in the harmonic sum.
pub proof fn lemma_raw_antitone(p: nat, s1: nat, s2: nat)
    requires
        4 <= p <= 18,
        1 <= s1 <= s2,
    ensures
        spec_raw_estimate(p, s1) >= spec_raw_estimate(p, s2),
{
    let m = pow2(p);
    lemma_pow2_pos(p);
    let t1 = m * m * pow2(63) / s1;
    let t2 = m * m * pow2(63) / s2;
    assert(t2 <= t1) by {
        lemma_div_is_ordered_by_denominator((m * m * pow2(63)) as int, s1 as int, s2 as int);
        lemma_pow2_pos(63);
        assert(m * m * pow2(63) >= 0);
    }
    assert(t2 * spec_alpha_num(m) <= t1 * spec_alpha_num(m)) by {
        lemma_mul_inequality(t2 as int, t1 as int, spec_alpha_num(m) as int);
        lemma_mul_is_commutative(t2 as int, spec_alpha_num(m) as int);
        lemma_mul_is_commutative(t1 as int, spec_alpha_num(m) as int);
    }
    lemma_div_is_ordered(
        (t2 * spec_alpha_num(m) + spec_alpha_den(m) / 2) as int,
        (t1 * spec_alpha_num(m) + spec_alpha_den(m) / 2) as int,
        spec_alpha_den(m) as int,
    );
}

} // verus!
