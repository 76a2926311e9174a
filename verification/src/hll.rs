//! Bit-packed HyperLogLog register array.
//!
//! The dense representation keeps `2^P` registers of `W` bits each, packed
//! into a `u32` buffer.  The first two words are header slots kept by the
//! layout, registers start at word 2, and a trailing guard word lets every
//! access read and write two adjacent words without a boundary branch.
//! Alongside the buffer the estimator maintains the number of zero
//! registers and the harmonic sum `sum 2^(63 - rank)` (the harmonic sum of
//! `2^-rank` scaled by `2^63`, an exact integer).
use vstd::prelude::*;

verus! {

use vstd::arithmetic::div_mod::lemma_div_is_ordered;
use vstd::arithmetic::div_mod::lemma_fundamental_div_mod;
use vstd::arithmetic::div_mod::lemma_mod_bound;
use vstd::arithmetic::mul::lemma_mul_inequality;
use vstd::arithmetic::mul::lemma_mul_is_commutative;
use vstd::arithmetic::power2::lemma2_to64;
use vstd::arithmetic::power2::lemma2_to64_rest;
use vstd::arithmetic::power2::lemma_pow2_adds;
use vstd::arithmetic::power2::lemma_pow2_pos;
use vstd::arithmetic::power2::lemma_pow2_strictly_increases;
use vstd::arithmetic::power2::pow2;

use crate::encode::max_rank;
use crate::encode::valid_params;

/// Number of `u32` words in the dense buffer: the packed registers rounded
/// up to whole words, two header slots and one guard word.
pub open spec fn spec_hll_len(p: nat, w: nat) -> nat {
    (pow2(p) * w + 31) / 32 + 3
}

/// Word that holds the first bit of register `i`.
pub open spec fn spec_word_of(i: int, w: nat) -> int {
    2 + (i * w) / 32
}

/// Bit position of register `i` inside its word.
pub open spec fn spec_pos_of(i: int, w: nat) -> int {
    (i * w) % 32
}

/// Two adjacent words seen as one 64-bit window.
pub open spec fn spec_window(regs: Seq<u32>, wi: int) -> u64 {
    (regs[wi] as u64) | ((regs[wi + 1] as u64) << 32u64)
}

/// Value of register `i`: a `w`-bit field of the window that starts at its
/// word.
pub open spec fn spec_reg(regs: Seq<u32>, i: int, w: nat) -> u32 {
    ((spec_window(regs, spec_word_of(i, w)) >> (spec_pos_of(i, w) as u64)) & ((1u64 << (
    w as u64)) - 1) as u64) as u32
}

/// How many of the first `n` registers are zero.
pub open spec fn spec_count_zeros(regs: Seq<u32>, w: nat, n: nat) -> nat
    decreases n,
{
    if n == 0 {
        0
    } else {
        spec_count_zeros(regs, w, (n - 1) as nat) + (if spec_reg(regs, n - 1, w) == 0 {
            1nat
        } else {
            0nat
        })
    }
}

/// Harmonic sum of the first `n` registers, scaled by `2^63`.
pub open spec fn spec_harmonic(regs: Seq<u32>, w: nat, n: nat) -> nat
    decreases n,
{
    if n == 0 {
        0
    } else {
        spec_harmonic(regs, w, (n - 1) as nat) + pow2((63 - spec_reg(regs, n - 1, w)) as nat)
    }
}

/// A register value always fits in its field.
pub proof fn lemma_reg_bounded(regs: Seq<u32>, i: int, w: nat)
    requires
        4 <= w <= 6,
    ensures
        spec_reg(regs, i, w) <= max_rank(w as usize),
{
    let win = spec_window(regs, spec_word_of(i, w));
    let pos = spec_pos_of(i, w) as u64;
    let wb = w as u64;
    let w32 = w as u32;
    assert(((win >> pos) & ((1u64 << wb) - 1) as u64) <= ((1u64 << wb) - 1) as u64)
        by (bit_vector);
    assert(((1u64 << wb) - 1) as u64 == (((1u32 << w32) - 1) as u32) as u64) by (bit_vector)
        requires
            4 <= wb <= 6,
            wb == w32,
    ;
}

/// Register fields never reach past the guard word.
pub proof fn lemma_word_in_range(i: int, p: nat, w: nat)
    requires
        4 <= w <= 6,
        0 <= i < pow2(p),
    ensures
        2 <= spec_word_of(i, w),
        spec_word_of(i, w) + 1 < spec_hll_len(p, w),
        0 <= spec_pos_of(i, w) < 32,
{
    let iw = i * w;
    let mw = pow2(p) * w;
    assert(0 <= iw && iw + w <= mw) by {
        lemma_mul_inequality(0, i, w as int);
        lemma_mul_inequality(i + 1, pow2(p) as int, w as int);
        assert((i + 1) * w == i * w + w) by (nonlinear_arith);
        lemma_mul_is_commutative(i, w as int);
        lemma_mul_is_commutative(i + 1, w as int);
        lemma_mul_is_commutative(pow2(p) as int, w as int);
    }
    lemma_mod_bound(iw, 32);
    assert(iw / 32 + 1 == (iw + 32) / 32) by {
        vstd::arithmetic::div_mod::lemma_div_plus_one(iw, 32);
    }
    lemma_div_is_ordered(iw + 32, mw as int + 31, 32);
}

/// Read register `idx` from the dense buffer.
pub fn get_register<const P: usize, const W: usize>(regs: &Vec<u32>, idx: u32) -> (r: u32)
    requires
        valid_params(P, W),
        regs@.len() == spec_hll_len(P as nat, W as nat),
        (idx as nat) < pow2(P as nat),
    ensures
        r == spec_reg(regs@, idx as int, W as nat),
        r <= max_rank(W),
{
    proof {
        lemma_word_in_range(idx as int, P as nat, W as nat);
        lemma_reg_bounded(regs@, idx as int, W as nat);
        assert(pow2(P as nat) <= 0x40000) by {
            lemma2_to64();
            if (P as nat) < 18 {
                lemma_pow2_strictly_increases(P as nat, 18);
            }
        }
        assert((idx as int) * (W as int) <= 0x180000) by (nonlinear_arith)
            requires
                (idx as int) < 0x40001,
                0 <= (W as int) <= 6,
        ;
        lemma_mul_is_commutative(idx as int, W as int);
    }
    let bit: usize = (idx as usize) * W;
    let wi: usize = bit / 32 + 2;
    let pos: u32 = (bit % 32) as u32;
    let w0: u32 = regs[wi];
    let w1: u32 = regs[wi + 1];
    let window: u64 = (w0 as u64) | ((w1 as u64) << 32u64);
    let wb: u64 = W as u64;
    proof {
        assert(1u64 << wb >= 16) by (bit_vector)
            requires 4 <= wb <= 6;
        assert((window >> (pos as u64)) & (((1u64 << wb) - 1) as u64) <= ((1u64 << wb)
            - 1) as u64) by (bit_vector);
    }
    let r: u64 = (window >> (pos as u64)) & ((1u64 << wb) - 1);
    r as u32
}

/// A masked two-word write is the masked update of their 64-bit window.
proof fn lemma_window_update(w0: u32, w1: u32, v: u32, pos: u64, wb: u64, b1: u64, b2: u64)
    by (bit_vector)
    requires
        4 <= wb <= 6,
        pos < 32,
        v <= ((1u64 << wb) - 1) as u64,
        pos + wb <= 32 ==> b1 == wb && b2 == 0,
        pos + wb > 32 ==> b1 == 32 - pos && b2 == wb - b1,
    ensures
        ((((w0 & !((((1u32 << (b1 as u32)) - 1) as u32) << (pos as u32))) | ((v as u32 & (((1u32
            << (b1 as u32)) - 1) as u32)) << (pos as u32))) as u64) | ((((w1 & !(((1u32 << (
        b2 as u32)) - 1) as u32)) | (((v as u32) >> (b1 as u32)) & (((1u32 << (b2 as u32))
            - 1) as u32))) as u64) << 32u64)) == ((((w0 as u64) | ((w1 as u64) << 32u64)) & !((((
        1u64 << wb) - 1) as u64) << pos)) | ((v as u64) << pos)),
{
}

/// Reading a field back after writing it yields the written value.
proof fn lemma_field_read_back(win: u64, v: u64, pos: u64, wb: u64)
    by (bit_vector)
    requires
        4 <= wb <= 6,
        pos < 32,
        v <= ((1u64 << wb) - 1) as u64,
    ensures
        (((win & !((((1u64 << wb) - 1) as u64) << pos)) | (v << pos)) >> pos) & (((1u64 << wb)
            - 1) as u64) == v,
{
}

/// Writing one field leaves a disjoint field of the same window unchanged.
proof fn lemma_field_frame_same_window(win: u64, v: u64, pos1: u64, pos2: u64, wb: u64)
    by (bit_vector)
    requires
        4 <= wb <= 6,
        pos1 < 32,
        pos2 < 32,
        v <= ((1u64 << wb) - 1) as u64,
        pos1 + wb <= pos2 || pos2 + wb <= pos1,
    ensures
        (((win & !((((1u64 << wb) - 1) as u64) << pos1)) | (v << pos1)) >> pos2) & (((1u64 << wb)
            - 1) as u64) == (win >> pos2) & (((1u64 << wb) - 1) as u64),
{
}

/// Rewriting the low `b2` bits of a window's low word leaves any field that
/// starts at or above `b2` unchanged.
proof fn lemma_field_frame_low(w1: u32, hi: u32, t: u32, b2: u64, pos: u64, wb: u64)
    by (bit_vector)
    requires
        4 <= wb <= 6,
        b2 < 6,
        b2 <= pos,
        pos < 32,
    ensures
        (((((w1 & !(((1u32 << (b2 as u32)) - 1) as u32)) | (t & (((1u32 << (b2 as u32))
            - 1) as u32))) as u64) | ((hi as u64) << 32u64)) >> pos) & (((1u64 << wb)
            - 1) as u64) == ((((w1 as u64) | ((hi as u64) << 32u64)) >> pos) & (((1u64 << wb)
            - 1) as u64)),
{
}

/// Rewriting bits at or above `pos1` of a window's high word leaves any
/// field that ends at or below `32 + pos1` unchanged.
proof fn lemma_field_frame_high(lo: u32, w0: u32, v: u32, pos1: u64, b1: u64, pos2: u64, wb: u64)
    by (bit_vector)
    requires
        4 <= wb <= 6,
        pos1 < 32,
        b1 <= wb,
        pos2 + wb <= 32 + pos1,
        pos2 < 32,
    ensures
        (((lo as u64) | ((((w0 & !((((1u32 << (b1 as u32)) - 1) as u32) << (pos1 as u32))) | ((v
            & (((1u32 << (b1 as u32)) - 1) as u32)) << (pos1 as u32))) as u64) << 32u64))
            >> pos2) & (((1u64 << wb) - 1) as u64) == ((((lo as u64) | ((w0 as u64) << 32u64))
            >> pos2) & (((1u64 << wb) - 1) as u64)),
{
}

/// Positions of two distinct registers: either they live two or more words
/// apart, or their bit ranges inside the shared window are disjoint.
proof fn lemma_distinct_fields(i: int, j: int, w: nat)
    requires
        4 <= w <= 6,
        0 <= i,
        0 <= j,
        i != j,
    ensures
        spec_word_of(j, w) == spec_word_of(i, w) ==> (spec_pos_of(j, w) + w <= spec_pos_of(i, w)
            || spec_pos_of(i, w) + w <= spec_pos_of(j, w)),
        spec_word_of(j, w) == spec_word_of(i, w) + 1 ==> spec_pos_of(j, w) + 32 >= spec_pos_of(
            i,
            w,
        ) + w,
        spec_word_of(j, w) == spec_word_of(i, w) - 1 ==> spec_pos_of(j, w) + w <= spec_pos_of(
            i,
            w,
        ) + 32,
{
    let iw = i * w;
    let jw = j * w;
    lemma_fundamental_div_mod(iw, 32);
    lemma_fundamental_div_mod(jw, 32);
    lemma_mod_bound(iw, 32);
    lemma_mod_bound(jw, 32);
    assert(i < j ==> iw + w <= jw) by {
        if i < j {
            lemma_mul_inequality(i + 1, j, w as int);
            assert((i + 1) * w == i * w + w) by (nonlinear_arith);
            lemma_mul_is_commutative(i + 1, w as int);
            lemma_mul_is_commutative(j, w as int);
        }
    }
    assert(j < i ==> jw + w <= iw) by {
        if j < i {
            lemma_mul_inequality(j + 1, i, w as int);
            assert((j + 1) * w == j * w + w) by (nonlinear_arith);
            lemma_mul_is_commutative(j + 1, w as int);
            lemma_mul_is_commutative(i, w as int);
        }
    }
}

/// Write register `idx`; only the two words of its window change, and every
/// other register keeps its value.
pub fn set_register<const P: usize, const W: usize>(regs: &mut Vec<u32>, idx: u32, new_rank: u32)
    requires
        valid_params(P, W),
        old(regs)@.len() == spec_hll_len(P as nat, W as nat),
        (idx as nat) < pow2(P as nat),
        new_rank <= max_rank(W),
    ensures
        final(regs)@.len() == old(regs)@.len(),
        spec_reg(final(regs)@, idx as int, W as nat) == new_rank,
        forall|j: int|
            0 <= j < pow2(P as nat) && j != idx as int ==> #[trigger] spec_reg(
                final(regs)@,
                j,
                W as nat,
            ) == spec_reg(old(regs)@, j, W as nat),
{
    proof {
        lemma_word_in_range(idx as int, P as nat, W as nat);
        assert(pow2(P as nat) <= 0x40000) by {
            lemma2_to64();
            if (P as nat) < 18 {
                lemma_pow2_strictly_increases(P as nat, 18);
            }
        }
        assert((idx as int) * (W as int) <= 0x180000) by (nonlinear_arith)
            requires
                (idx as int) < 0x40001,
                0 <= (W as int) <= 6,
        ;
        lemma_mul_is_commutative(idx as int, W as int);
    }
    let bit: usize = (idx as usize) * W;
    let wi: usize = bit / 32 + 2;
    let pos: u32 = (bit % 32) as u32;
    let wb: u32 = W as u32;
    let bits1: u32 = if 32 - pos < wb {
        32 - pos
    } else {
        wb
    };
    let bits2: u32 = wb - bits1;
    proof {
        assert(1u32 << bits1 >= 2 && 1u32 << bits2 >= 1 && (1u32 << bits2) - 1 < 64)
            by (bit_vector)
            requires 1 <= bits1 <= 6 && bits2 <= 6,
        ;
        assert(new_rank <= ((1u64 << (wb as u64)) - 1) as u64) by (bit_vector)
            requires
                4 <= wb <= 6,
                new_rank <= ((1u32 << wb) - 1) as u32,
        ;
    }
    let mask1: u32 = (1u32 << bits1) - 1;
    let mask2: u32 = (1u32 << bits2) - 1;
    let w0: u32 = regs[wi];
    let w1: u32 = regs[wi + 1];
    let new_w0: u32 = (w0 & !(mask1 << pos)) | ((new_rank & mask1) << pos);
    let new_w1: u32 = (w1 & !mask2) | ((new_rank >> bits1) & mask2);
    regs.set(wi, new_w0);
    regs.set(wi + 1, new_w1);
    proof {
        let wn = W as nat;
        let i = idx as int;
        let win_old = spec_window(old(regs)@, wi as int);
        let win_new = spec_window(regs@, wi as int);
        lemma_window_update(
            w0,
            w1,
            new_rank,
            pos as u64,
            wb as u64,
            bits1 as u64,
            bits2 as u64,
        );
        assert(win_new == ((win_old & !((((1u64 << (wb as u64)) - 1) as u64) << (pos as u64)))
            | ((new_rank as u64) << (pos as u64))));
        lemma_field_read_back(win_old, new_rank as u64, pos as u64, wb as u64);
        assert(spec_reg(regs@, i, wn) == new_rank);
        assert forall|j: int|
            0 <= j < pow2(P as nat) && j != i implies spec_reg(regs@, j, wn) == spec_reg(
            old(regs)@,
            j,
            wn,
        ) by {
            lemma_word_in_range(j, P as nat, wn);
            lemma_distinct_fields(i, j, wn);
            let wj = spec_word_of(j, wn);
            let pj = spec_pos_of(j, wn) as u64;
            if wj == wi as int {
                lemma_field_frame_same_window(
                    win_old,
                    new_rank as u64,
                    pos as u64,
                    pj,
                    wb as u64,
                );
            } else if wj == wi as int + 1 {
                if bits2 == 0 {
                    assert(new_w1 == w1) by (bit_vector)
                        requires
                            new_w1 == (w1 & !(((1u32 << 0u32) - 1) as u32)) | ((new_rank
                                >> bits1) & (((1u32 << 0u32) - 1) as u32)),
                    ;
                } else {
                    assert(pj >= bits2) by {
                        lemma_fundamental_div_mod(idx as int * W as int, 32);
                    }
                    lemma_field_frame_low(
                        w1,
                        old(regs)@[wj + 1],
                        new_rank >> bits1,
                        bits2 as u64,
                        pj,
                        wb as u64,
                    );
                }
            } else if wj == wi as int - 1 {
                assert(pj + wn <= 32 + pos) by {
                    lemma_fundamental_div_mod(idx as int * W as int, 32);
                }
                lemma_field_frame_high(
                    old(regs)@[wj],
                    w0,
                    new_rank,
                    pos as u64,
                    bits1 as u64,
                    pj,
                    wb as u64,
                );
            } else {
                assert(regs@[wj] == old(regs)@[wj] && regs@[wj + 1] == old(regs)@[wj + 1]);
            }
        }
    }
}


/// The dense summaries: the stored zero count and harmonic sum match the
/// registers.
pub open spec fn dense_wf(regs: Seq<u32>, zeros: u32, sum: u128, p: nat, w: nat) -> bool {
    &&& regs.len() == spec_hll_len(p, w)
    &&& zeros == spec_count_zeros(regs, w, pow2(p))
    &&& sum == spec_harmonic(regs, w, pow2(p))
}

/// Summaries of the first `n` registers agree wherever the registers do.
pub proof fn lemma_summaries_frame(a: Seq<u32>, b: Seq<u32>, w: nat, n: nat)
    requires
        forall|i: int| 0 <= i < n ==> spec_reg(a, i, w) == spec_reg(b, i, w),
    ensures
        spec_count_zeros(a, w, n) == spec_count_zeros(b, w, n),
        spec_harmonic(a, w, n) == spec_harmonic(b, w, n),
    decreases n,
{
    if n > 0 {
        lemma_summaries_frame(a, b, w, (n - 1) as nat);
    }
}

/// How the summaries move when exactly one register changes.
pub proof fn lemma_summaries_update(a: Seq<u32>, b: Seq<u32>, w: nat, n: nat, t: int)
    requires
        0 <= t < n,
        forall|i: int| 0 <= i < n && i != t ==> spec_reg(a, i, w) == spec_reg(b, i, w),
    ensures
        spec_count_zeros(b, w, n) + (if spec_reg(a, t, w) == 0 {
            1nat
        } else {
            0nat
        }) == spec_count_zeros(a, w, n) + (if spec_reg(b, t, w) == 0 {
            1nat
        } else {
            0nat
        }),
        spec_harmonic(b, w, n) + pow2((63 - spec_reg(a, t, w)) as nat) == spec_harmonic(a, w, n)
            + pow2((63 - spec_reg(b, t, w)) as nat),
    decreases n,
{
    if t == n - 1 {
        lemma_summaries_frame(a, b, w, (n - 1) as nat);
    } else {
        lemma_summaries_update(a, b, w, (n - 1) as nat, t);
    }
}

/// Ranges of the summaries, and the share of a single register in them.
pub proof fn lemma_summaries_bounds(regs: Seq<u32>, w: nat, n: nat)
    requires
        4 <= w <= 6,
    ensures
        spec_count_zeros(regs, w, n) <= n,
        n <= spec_harmonic(regs, w, n),
        spec_harmonic(regs, w, n) <= n * pow2(63),
        forall|t: int|
            #![trigger spec_reg(regs, t, w)]
            0 <= t < n ==> spec_harmonic(regs, w, n) >= pow2((63 - spec_reg(regs, t, w)) as nat),
        forall|t: int|
            #![trigger spec_reg(regs, t, w)]
            0 <= t < n && spec_reg(regs, t, w) == 0 ==> spec_count_zeros(regs, w, n) >= 1,
    decreases n,
{
    if n == 0 {
    } else {
        lemma_summaries_bounds(regs, w, (n - 1) as nat);
        lemma_reg_bounded(regs, n - 1, w);
        let v = spec_reg(regs, n - 1, w);
        let w32 = w as u32;
        assert(v <= 63) by {
            assert(((1u32 << w32) - 1) as u32 <= 63) by (bit_vector)
                requires 4 <= w32 <= 6;
        }
        assert(pow2((63 - v) as nat) <= pow2(63)) by {
            if v > 0 {
                lemma_pow2_strictly_increases((63 - v) as nat, 63);
            }
        }
        lemma_pow2_pos((63 - v) as nat);
        assert((n - 1) * pow2(63) + pow2(63) == n * pow2(63)) by (nonlinear_arith);
    }
}

/// A buffer of zero words holds only zero registers.
pub proof fn lemma_zeroed_buffer(regs: Seq<u32>, p: nat, w: nat, n: nat)
    requires
        4 <= w <= 6,
        n <= pow2(p),
        regs.len() >= spec_hll_len(p, w),
        forall|k: int| 0 <= k < regs.len() ==> regs[k] == 0u32,
    ensures
        forall|i: int| 0 <= i < n ==> #[trigger] spec_reg(regs, i, w) == 0,
        spec_count_zeros(regs, w, n) == n,
        spec_harmonic(regs, w, n) == n * pow2(63),
    decreases n,
{
    assert forall|i: int| 0 <= i < n implies #[trigger] spec_reg(regs, i, w) == 0 by {
        lemma_word_in_range(i, p, w);
        let pos = spec_pos_of(i, w) as u64;
        let wb = w as u64;
        assert(((((0u32 as u64) | ((0u32 as u64) << 32u64)) >> pos) & ((1u64 << wb)
            - 1) as u64) as u32 == 0u32) by (bit_vector);
    }
    if n > 0 {
        lemma_zeroed_buffer(regs, p, w, (n - 1) as nat);
        assert(spec_reg(regs, n - 1, w) == 0);
        assert(spec_harmonic(regs, w, n) == spec_harmonic(regs, w, (n - 1) as nat) + pow2(63));
        assert(((n - 1) as nat) * pow2(63) + pow2(63) == n * pow2(63)) by (nonlinear_arith)
            requires
                n >= 1,
        ;
    }
}

/// `2^63` as a `u128` factor.
pub const TWO63_TERM: u128 = 0x8000_0000_0000_0000;

/// When registers only grow, the zero count and harmonic sum only
/// shrink.
pub proof fn lemma_summaries_monotone(a: Seq<u32>, b: Seq<u32>, w: nat, n: nat)
    requires
        4 <= w <= 6,
        forall|i: int|
            0 <= i < n ==> #[trigger] spec_reg(b, i, w) >= spec_reg(a, i, w),
    ensures
        spec_count_zeros(b, w, n) <= spec_count_zeros(a, w, n),
        spec_harmonic(b, w, n) <= spec_harmonic(a, w, n),
    decreases n,
{
    if n > 0 {
        lemma_summaries_monotone(a, b, w, (n - 1) as nat);
        let va = spec_reg(a, n - 1, w);
        let vb = spec_reg(b, n - 1, w);
        lemma_reg_bounded(a, n - 1, w);
        lemma_reg_bounded(b, n - 1, w);
        let w32 = w as u32;
        assert(((1u32 << w32) - 1) as u32 <= 63) by (bit_vector)
            requires 4 <= w32 <= 6;
        assert(pow2((63 - vb) as nat) <= pow2((63 - va) as nat)) by {
            if va < vb {
                lemma_pow2_strictly_increases((63 - vb) as nat, (63 - va) as nat);
            }
        }
    }
}

/// Allocate a zeroed dense buffer and its initial summaries.
pub fn hll_new<const P: usize, const W: usize>() -> (r: (Vec<u32>, u32, u128))
    requires
        valid_params(P, W),
    ensures
        dense_wf(r.0@, r.1, r.2, P as nat, W as nat),
        forall|i: int| 0 <= i < pow2(P as nat) ==> #[trigger] spec_reg(r.0@, i, W as nat) == 0,
        r.1 == pow2(P as nat),
        r.2 == pow2(P as nat) * pow2(63),
{
    proof {
        lemma2_to64();
        lemma2_to64_rest();
        if (P as nat) < 18 {
            lemma_pow2_strictly_increases(P as nat, 18);
        }
        vstd::bits::lemma_u64_shl_is_mul(1u64, P as u64);
        assert((pow2(P as nat) * (W as nat) + 31) / 32 + 3 <= (0x40000 * 6 + 31) / 32 + 3) by {
            lemma_mul_inequality(pow2(P as nat) as int, 0x40000, W as int);
            assert(0x40000 * (W as int) <= 0x40000 * 6) by (nonlinear_arith)
                requires
                    4 <= (W as int) <= 6,
            ;
            lemma_mul_is_commutative(pow2(P as nat) as int, W as int);
            lemma_div_is_ordered(pow2(P as nat) as int * (W as int) + 31, (0x40000 * 6 + 31) as int, 32);
        }
    }
    let m: u64 = 1u64 << (P as u64);
    let len: usize = ((m as usize) * W + 31) / 32 + 3;
    let mut regs: Vec<u32> = Vec::new();
    let mut i: usize = 0;
    while i < len
        invariant
            i <= len,
            regs@.len() == i,
            forall|k: int| 0 <= k < i ==> regs@[k] == 0u32,
        decreases len - i,
    {
        regs.push(0u32);
        i = i + 1;
    }
    let zeros: u32 = m as u32;
    let sum: u128 = (m as u128) * TWO63_TERM;
    proof {
        lemma_zeroed_buffer(regs@, P as nat, W as nat, pow2(P as nat));
    }
    (regs, zeros, sum)
}

/// Compute `2^(63 - rank)` for a rank of at most 63.
fn pow2_term(rank: u32) -> (r: u128)
    requires
        rank <= 63,
    ensures
        r == pow2((63 - rank) as nat),
{
    proof {
        lemma_pow2_pos((63 - rank) as nat);
        vstd::bits::lemma_u64_pow2_no_overflow((63 - rank) as nat);
        vstd::bits::lemma_u64_shl_is_mul(1u64, (63 - rank) as u64);
    }
    let t: u64 = 1u64 << ((63 - rank) as u64);
    t as u128
}

/// Raise register `idx` to `rank` if that grows it, keeping the zero count
/// and harmonic sum exact.  A rank no larger than the stored one changes
/// nothing at all.
pub fn hll_insert<const P: usize, const W: usize>(
    regs: &mut Vec<u32>,
    zeros: &mut u32,
    sum: &mut u128,
    idx: u32,
    rank: u32,
) -> (grew: bool)
    requires
        valid_params(P, W),
        dense_wf(old(regs)@, *old(zeros), *old(sum), P as nat, W as nat),
        (idx as nat) < pow2(P as nat),
        rank <= max_rank(W),
    ensures
        dense_wf(final(regs)@, *final(zeros), *final(sum), P as nat, W as nat),
        spec_reg(final(regs)@, idx as int, W as nat) == (if rank > spec_reg(
            old(regs)@,
            idx as int,
            W as nat,
        ) {
            rank
        } else {
            spec_reg(old(regs)@, idx as int, W as nat)
        }),
        forall|j: int|
            0 <= j < pow2(P as nat) && j != idx as int ==> #[trigger] spec_reg(
                final(regs)@,
                j,
                W as nat,
            ) == spec_reg(old(regs)@, j, W as nat),
        !grew ==> *final(regs) == *old(regs) && *final(zeros) == *old(zeros) && *final(sum)
            == *old(sum),
        grew == (rank > spec_reg(old(regs)@, idx as int, W as nat)),
        *final(zeros) <= *old(zeros),
{
    let old_rank: u32 = get_register::<P, W>(regs, idx);
    if rank <= old_rank {
        return false;
    }
    proof {
        lemma_summaries_bounds(old(regs)@, W as nat, pow2(P as nat));
        let w32 = W as u32;
        assert(max_rank(W) <= 63) by {
            assert(((1u32 << w32) - 1) as u32 <= 63) by (bit_vector)
                requires 4 <= w32 <= 6;
        }
        lemma2_to64();
        lemma2_to64_rest();
        if (P as nat) < 18 {
            lemma_pow2_strictly_increases(P as nat, 18);
        }
        assert(pow2(P as nat) * pow2(63) <= pow2(18) * pow2(63)) by {
            lemma_mul_inequality(pow2(P as nat) as int, pow2(18) as int, pow2(63) as int);
            lemma_mul_is_commutative(pow2(P as nat) as int, pow2(63) as int);
            lemma_mul_is_commutative(pow2(18) as int, pow2(63) as int);
        }
        assert(pow2(18) * pow2(63) == pow2(81)) by {
            lemma_pow2_adds(18, 63);
        }
        assert(pow2(81) == pow2(64) * pow2(17)) by {
            lemma_pow2_adds(64, 17);
        }
    }
    let t_old: u128 = pow2_term(old_rank);
    let t_new: u128 = pow2_term(rank);
    set_register::<P, W>(regs, idx, rank);
    proof {
        lemma_summaries_update(old(regs)@, regs@, W as nat, pow2(P as nat), idx as int);
        if old_rank == 0 {
            assert(spec_count_zeros(old(regs)@, W as nat, pow2(P as nat)) >= 1);
        }
        assert(pow2((63 - old_rank) as nat) <= pow2(63)) by {
            if old_rank > 0 {
                lemma_pow2_strictly_increases((63 - old_rank) as nat, 63);
            }
        }
        assert(pow2((63 - rank) as nat) <= pow2(63)) by {
            if rank > 0 {
                lemma_pow2_strictly_increases((63 - rank) as nat, 63);
            }
        }
    }
    if old_rank == 0 {
        *zeros = *zeros - 1;
    }
    *sum = *sum - t_old + t_new;
    true
}

} // verus!
