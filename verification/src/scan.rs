//! Branchless linear membership scans used by the slice representation.
//!
//! The scans visit a fixed number of lanes per step and combine the lane
//! comparisons with `|`, a shape compilers turn into SIMD compares.  Only
//! the largest multiple of the lane count that fits in the slice is visited,
//! mirroring an exact-chunk traversal.
use vstd::prelude::*;

verus! {

/// Whether `v` occurs in the first `n` elements of `s`.
pub open spec fn occurs_within(s: Seq<u32>, n: int, v: u32) -> bool {
    exists|i: int| 0 <= i < n && s[i] == v
}

/// Lane-wise membership scan over all complete chunks of `N` elements.
pub fn contains_vectorized<const N: usize>(a: &[u32], v: u32) -> (r: bool)
    requires
        1 <= N,
    ensures
        r == occurs_within(a@, a@.len() as int / N as int * N as int, v),
{
    let q: usize = a.len() / N;
    proof {
        vstd::arithmetic::div_mod::lemma_fundamental_div_mod(a.len() as int, N as int);
        vstd::arithmetic::div_mod::lemma_mod_bound(a.len() as int, N as int);
        vstd::arithmetic::mul::lemma_mul_is_commutative(q as int, N as int);
    }
    let scanned: usize = q * N;
    let mut res: bool = false;
    let mut i: usize = 0;
    while i < scanned
        invariant
            i <= scanned <= a.len(),
            scanned == a@.len() as int / N as int * N as int,
            res == occurs_within(a@, i as int, v),
        decreases scanned - i,
    {
        res = res || a[i] == v;
        i = i + 1;
    }
    res
}

/// Lane-wise membership test over one fixed-width chunk.
pub fn contains_fixed_vectorized<const N: usize>(a: [u32; N], v: u32) -> (r: bool)
    ensures
        r == a@.contains(v),
{
    let mut res: bool = false;
    let mut i: usize = 0;
    while i < N
        invariant
            i <= N,
            res == occurs_within(a@, i as int, v),
        decreases N - i,
    {
        res = res || a[i] == v;
        i = i + 1;
    }
    proof {
        assert(a@.len() == N);
        if occurs_within(a@, N as int, v) {
            let w = choose|j: int| 0 <= j < N && a@[j] == v;
            assert(a@.contains(v));
        }
        if a@.contains(v) {
            let w = choose|j: int| 0 <= j < a@.len() && a@[j] == v;
            assert(occurs_within(a@, N as int, v));
        }
    }
    res
}

} // verus!
