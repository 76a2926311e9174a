//! Hash-set representation: a set of encoded hash codes.
//!
//! The mid-range representation keeps the distinct codes in a
//! `hashbrown::HashSet<u32>`.  The set itself is outside code; each method
//! the estimator needs is a thin trusted wrapper whose contract speaks of
//! the abstract contents `code_set_view`.  The footprint arithmetic that
//! mirrors the table's allocation (an 87.5% load factor over power-of-two
//! bucket counts, four data bytes and one control byte per bucket and a
//! 16-byte control tail) is ordinary verified code.
use vstd::prelude::*;

verus! {

/// A set of 32-bit hash codes, backed by `hashbrown::HashSet<u32>`.
#[verifier::external_body]
pub struct CodeSet {
    inner: hashbrown::HashSet<u32>,
}

/// The abstract contents of a [`CodeSet`].
pub uninterp spec fn code_set_view(s: CodeSet) -> Set<u32>;

impl CodeSet {
    /// Relies on `hashbrown::HashSet::with_capacity`: a new set is empty.
    #[verifier::external_body]
    pub fn with_capacity(cap: usize) -> (s: CodeSet)
        ensures
            code_set_view(s) == Set::<u32>::empty(),
    {
        CodeSet { inner: hashbrown::HashSet::with_capacity(cap) }
    }

    /// Relies on `hashbrown::HashSet::insert`: afterwards the value is in
    /// the set and nothing else changed.
    #[verifier::external_body]
    pub fn insert(&mut self, h: u32)
        ensures
            code_set_view(*final(self)) == code_set_view(*old(self)).insert(h),
    {
        self.inner.insert(h);
    }

    /// Relies on `hashbrown::HashSet::contains`.
    #[verifier::external_body]
    pub fn contains(&self, h: u32) -> (r: bool)
        ensures
            r == code_set_view(*self).contains(h),
    {
        self.inner.contains(&h)
    }

    /// Relies on `hashbrown::HashSet::len`: the number of elements.
    #[verifier::external_body]
    pub fn len(&self) -> (r: usize)
        ensures
            code_set_view(*self).finite() ==> r == code_set_view(*self).len(),
    {
        self.inner.len()
    }

    /// Relies on `hashbrown::HashSet::capacity`: how many elements fit
    /// before the table reallocates, never below the current length, and
    /// bounded because the table's allocation of five bytes per bucket
    /// exists in memory.
    #[verifier::external_body]
    pub fn capacity(&self) -> (r: usize)
        ensures
            code_set_view(*self).finite() ==> r >= code_set_view(*self).len(),
            r <= usize::MAX / 8,
    {
        self.inner.capacity()
    }

    /// Relies on `hashbrown::HashSet::iter`: every element exactly once,
    /// in no particular order.
    #[verifier::external_body]
    pub fn to_vec(&self) -> (v: Vec<u32>)
        ensures
            v@.no_duplicates(),
            forall|i: int| 0 <= i < v@.len() ==> code_set_view(*self).contains(#[trigger] v@[i]),
            forall|h: u32| code_set_view(*self).contains(h) ==> #[trigger] v@.contains(h),
    {
        self.inner.iter().copied().collect()
    }

    /// Relies on `hashbrown::HashSet::clone`: the copy holds the same
    /// elements.
    #[verifier::external_body]
    pub fn duplicate(&self) -> (s: CodeSet)
        ensures
            code_set_view(s) == code_set_view(*self),
    {
        CodeSet { inner: self.inner.clone() }
    }

    /// Relies on `hashbrown::HashSet::eq`: true exactly when both sets
    /// hold the same elements.
    #[verifier::external_body]
    pub fn set_eq(&self, other: &CodeSet) -> (r: bool)
        ensures
            r <==> (code_set_view(*self) =~= code_set_view(*other)),
    {
        self.inner == other.inner
    }
}

/// Smallest power of two that is at least `t`, starting the search at `b`.
pub open spec fn spec_next_pow2_from(b: nat, t: nat) -> nat
    decreases (if t > b {
        t - b
    } else {
        0
    }),
{
    if b < 1 {
        0
    } else if b >= t {
        b
    } else {
        spec_next_pow2_from(b * 2, t)
    }
}

/// Bucket count of a table whose reported capacity is `c`: hashbrown keeps
/// one empty slot in tables of up to eight buckets and 12.5% free slots in
/// larger ones, over power-of-two bucket counts.
pub open spec fn spec_buckets_of_capacity(c: nat) -> nat {
    if c == 0 {
        0
    } else if c <= 3 {
        4
    } else if c <= 7 {
        8
    } else if c <= 14 {
        16
    } else {
        spec_next_pow2_from(16, (8 * c + 6) / 7)
    }
}

/// Allocated bytes of a table with capacity `c`: four data bytes and one
/// control byte per bucket plus the 16-byte control tail, saturating at
/// `usize::MAX`.
pub open spec fn spec_set_footprint(c: nat) -> nat {
    let b = spec_buckets_of_capacity(c);
    if b == 0 {
        0
    } else if 5 * b + 16 > usize::MAX {
        usize::MAX as nat
    } else {
        5 * b + 16
    }
}

/// Compute the smallest power of two at least `t`, starting at `b`.
fn next_pow2_from(b: usize, t: usize) -> (r: usize)
    requires
        1 <= b,
        t <= usize::MAX / 2,
        b <= usize::MAX / 2,
    ensures
        r == spec_next_pow2_from(b as nat, t as nat),
        r >= 1,
{
    let mut cur: usize = b;
    while cur < t
        invariant
            1 <= cur <= usize::MAX / 2 || cur >= t,
            t <= usize::MAX / 2,
            1 <= cur,
            spec_next_pow2_from(b as nat, t as nat) == spec_next_pow2_from(cur as nat, t as nat),
        decreases (if t > cur {
            t - cur
        } else {
            0
        }),
    {
        cur = cur * 2;
    }
    cur
}

/// Compute the allocated bytes of a hash-set with reported capacity `c`.
pub fn set_footprint(c: usize) -> (r: usize)
    requires
        c <= usize::MAX / 8,
    ensures
        r == spec_set_footprint(c as nat),
{
    let b: usize;
    if c == 0 {
        return 0;
    } else if c <= 3 {
        b = 4;
    } else if c <= 7 {
        b = 8;
    } else if c <= 14 {
        b = 16;
    } else {
        b = next_pow2_from(16, (8 * c + 6) / 7);
        proof {
            vstd::arithmetic::div_mod::lemma_div_is_ordered(
                (8 * c + 6) as int,
                usize::MAX as int,
                7,
            );
            assert(usize::MAX as int / 7 <= usize::MAX / 2);
        }
    }
    if b > (usize::MAX - 16) / 5 {
        proof {
            assert(5 * (b as nat) + 16 > usize::MAX) by (nonlinear_arith)
                requires
                    (b as nat) > ((usize::MAX - 16) / 5) as nat,
                    usize::MAX >= 16,
            ;
        }
        return usize::MAX;
    }
    proof {
        assert(5 * (b as nat) + 16 <= usize::MAX) by (nonlinear_arith)
            requires
                (b as nat) <= ((usize::MAX - 16) / 5) as nat,
                usize::MAX >= 16,
        ;
    }
    5 * b + 16
}

} // verus!
