//! Sparse hash encoding.
//!
//! A 64-bit hash is summarised by a register index and a rank (one plus the
//! number of trailing zeros of the complemented hash shifted by the
//! precision).  The compact representations pack both values into a single
//! non-zero 31-bit code; the dense representation consumes them directly.
//! Ranks saturate at the largest value a `W`-bit register can hold, so a
//! stored rank never wraps.
use vstd::prelude::*;

verus! {

use vstd::arithmetic::power2::lemma2_to64;
use vstd::arithmetic::power2::pow2;
use vstd::std_specs::bits::axiom_u64_trailing_zeros;
use vstd::std_specs::bits::u64_trailing_zeros;

/// Parameter ranges supported by the estimator: `P` index bits and `W`-bit
/// registers.
pub open spec fn valid_params(p: usize, w: usize) -> bool {
    4 <= p <= 18 && 4 <= w <= 6
}

/// Rank of a hash before saturation: one plus the number of trailing zeros
/// of `!h >> p`.
pub open spec fn spec_raw_rank(h: u64, p: usize) -> u32 {
    (u64_trailing_zeros(!h >> (p as u64)) + 1) as u32
}

/// Largest value a `w`-bit register can hold.
pub open spec fn max_rank(w: usize) -> u32 {
    ((1u32 << (w as u32)) - 1) as u32
}

/// Rank of a hash as stored: saturated to the register width.
pub open spec fn spec_rank(h: u64, p: usize, w: usize) -> u32 {
    if spec_raw_rank(h, p) > max_rank(w) {
        max_rank(w)
    } else {
        spec_raw_rank(h, p)
    }
}

/// Register index selected by a hash: its low `p` bits.
pub open spec fn spec_index(h: u64, p: usize) -> u32 {
    (h as u32) & ((1u32 << (p as u32)) - 1) as u32
}

/// Index field kept by the sparse encoding: the low `32 - w - 1` bits of the
/// hash, a superset of the register index bits.
pub open spec fn spec_sparse_index(h: u64, w: usize) -> u32 {
    (h as u32) & ((1u32 << ((31 - w as u32) as u32)) - 1) as u32
}

/// Sparse encoding of a hash: index field shifted over the rank.
pub open spec fn spec_code(h: u64, p: usize, w: usize) -> u32 {
    (spec_sparse_index(h, w) << (w as u32)) | spec_rank(h, p, w)
}

/// Rank carried by a sparse code: its low `w` bits.
pub open spec fn spec_code_rank(c: u32, w: usize) -> u32 {
    c & max_rank(w)
}

/// Register index carried by a sparse code.
pub open spec fn spec_code_index(c: u32, p: usize, w: usize) -> u32 {
    (c >> (w as u32)) & ((1u32 << (p as u32)) - 1) as u32
}

/// Compute the saturated rank of a hash.
pub fn rank_of_hash<const P: usize, const W: usize>(hash: u64) -> (r: u32)
    requires
        valid_params(P, W),
    ensures
        r == spec_rank(hash, P, W),
        1 <= r <= max_rank(W),
{
    let wb: u32 = W as u32;
    let shifted: u64 = !hash >> (P as u64);
    proof {
        axiom_u64_trailing_zeros(shifted);
        assert(1u32 << wb >= 16) by (bit_vector)
            requires 4 <= wb <= 6;
    }
    let raw: u32 = shifted.trailing_zeros() + 1;
    let cap: u32 = (1u32 << wb) - 1;
    if raw > cap {
        cap
    } else {
        raw
    }
}

/// Compute the register index a hash selects.
pub fn index_of_hash<const P: usize, const W: usize>(hash: u64) -> (r: u32)
    requires
        valid_params(P, W),
    ensures
        r == spec_index(hash, P),
        (r as nat) < pow2(P as nat),
{
    let pb: u32 = P as u32;
    let h32: u32 = hash as u32;
    proof {
        assert(1u32 << pb >= 16) by (bit_vector)
            requires 4 <= pb <= 18;
        assert((h32 & ((1u32 << pb) - 1) as u32) <= ((1u32 << pb) - 1) as u32) by (bit_vector);
        lemma_shift_is_pow2(P);
    }
    let mask: u32 = (1u32 << pb) - 1;
    h32 & mask
}

/// The mask width used for indices matches the register count.
pub proof fn lemma_shift_is_pow2(p: usize)
    requires
        4 <= p <= 18,
    ensures
        (1u32 << (p as u32)) == pow2(p as nat),
{
    lemma2_to64();
    if (p as nat) < 18 {
        vstd::arithmetic::power2::lemma_pow2_strictly_increases(p as nat, 18);
    }
    vstd::bits::lemma_u32_shl_is_mul(1u32, p as u32);
}

/// A register index selected by a hash is below the register count.
pub proof fn lemma_index_bound(h: u64, p: usize)
    requires
        4 <= p <= 18,
    ensures
        (spec_index(h, p) as nat) < pow2(p as nat),
{
    let pb = p as u32;
    let h32 = h as u32;
    assert(1u32 << pb >= 16) by (bit_vector)
        requires 4 <= pb <= 18;
    assert((h32 & ((1u32 << pb) - 1) as u32) <= ((1u32 << pb) - 1) as u32) by (bit_vector);
    lemma_shift_is_pow2(p);
}

/// A decoded register index is below the register count.
pub proof fn lemma_code_index_bound(c: u32, p: usize, w: usize)
    requires
        valid_params(p, w),
    ensures
        (spec_code_index(c, p, w) as nat) < pow2(p as nat),
{
    let pb = p as u32;
    let wb = w as u32;
    assert(1u32 << pb >= 16) by (bit_vector)
        requires 4 <= pb <= 18;
    assert(((c >> wb) & ((1u32 << pb) - 1) as u32) <= ((1u32 << pb) - 1) as u32) by (bit_vector);
    lemma_shift_is_pow2(p);
}

/// Compute the sparse encoding of a hash.
pub fn encode_hash<const P: usize, const W: usize>(hash: u64) -> (c: u32)
    requires
        valid_params(P, W),
    ensures
        c == spec_code(hash, P, W),
        c != 0,
        c < 0x8000_0000u32,
{
    let wb: u32 = W as u32;
    let rank: u32 = rank_of_hash::<P, W>(hash);
    let h32: u32 = hash as u32;
    proof {
        assert(1u32 << ((31 - wb) as u32) >= 2) by (bit_vector)
            requires 4 <= wb <= 6;
        lemma_code_shape(h32, rank, wb);
    }
    let idx_mask: u32 = (1u32 << (31 - wb)) - 1;
    let idx: u32 = h32 & idx_mask;
    (idx << wb) | rank
}

/// Packing a sub-31-bit index field over a small non-zero rank yields a
/// non-zero code below `2^31`.
proof fn lemma_code_shape(h32: u32, rank: u32, w: u32)
    by (bit_vector)
    requires
        4 <= w <= 6,
        1 <= rank,
        rank <= ((1u32 << w) - 1) as u32,
    ensures
        (((h32 & ((1u32 << ((31 - w) as u32)) - 1) as u32) << w) | rank) != 0,
        (((h32 & ((1u32 << ((31 - w) as u32)) - 1) as u32) << w) | rank) < 0x8000_0000u32,
{
}

/// Recover the rank stored in a sparse code.
pub fn decode_rank<const P: usize, const W: usize>(c: u32) -> (r: u32)
    requires
        valid_params(P, W),
    ensures
        r == spec_code_rank(c, W),
        r <= max_rank(W),
{
    let wb: u32 = W as u32;
    proof {
        assert(1u32 << wb >= 16) by (bit_vector)
            requires 4 <= wb <= 6;
        assert((c & ((1u32 << wb) - 1) as u32) <= ((1u32 << wb) - 1) as u32) by (bit_vector);
    }
    c & ((1u32 << wb) - 1)
}

/// Recover the register index stored in a sparse code.
pub fn decode_index<const P: usize, const W: usize>(c: u32) -> (r: u32)
    requires
        valid_params(P, W),
    ensures
        r == spec_code_index(c, P, W),
        (r as nat) < pow2(P as nat),
{
    let wb: u32 = W as u32;
    let pb: u32 = P as u32;
    proof {
        lemma_code_index_bound(c, P, W);
        assert(1u32 << pb >= 16) by (bit_vector)
            requires 4 <= pb <= 18;
    }
    (c >> wb) & ((1u32 << pb) - 1)
}

/// Decoding the sparse encoding of a hash yields the same register index and
/// rank that direct dense insertion of the hash would use.
pub proof fn lemma_code_round_trip(h: u64, p: usize, w: usize)
    requires
        valid_params(p, w),
    ensures
        spec_code_rank(spec_code(h, p, w), w) == spec_rank(h, p, w),
        spec_code_index(spec_code(h, p, w), p, w) == spec_index(h, p),
{
    let rank = spec_rank(h, p, w);
    assert(1 <= spec_raw_rank(h, p)) by {
        axiom_u64_trailing_zeros(!h >> (p as u64));
    }
    let wb = w as u32;
    assert(((1u32 << wb) - 1) as u32 >= 15) by (bit_vector)
        requires 4 <= wb <= 6;
    lemma_code_round_trip_bits(h as u32, rank, p as u32, w as u32);
}

/// Bit-level core of [`lemma_code_round_trip`].
proof fn lemma_code_round_trip_bits(h32: u32, rank: u32, p: u32, w: u32)
    by (bit_vector)
    requires
        4 <= w <= 6,
        4 <= p <= 18,
        1 <= rank,
        rank <= ((1u32 << w) - 1) as u32,
    ensures
        ((((h32 & ((1u32 << ((31 - w) as u32)) - 1) as u32) << w) | rank) & ((1u32 << w)
            - 1) as u32) == rank,
        (((((h32 & ((1u32 << ((31 - w) as u32)) - 1) as u32) << w) | rank) >> w) & ((1u32 << p)
            - 1) as u32) == (h32 & ((1u32 << p) - 1) as u32),
{
}

} // verus!
