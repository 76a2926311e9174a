//! The estimator type and its four storage representations.
//!
//! `CardinalityEstimator<P, W>` counts distinct inserted values.  It starts
//! with up to two encoded hashes inline (`Small`), then keeps them in a
//! short zero-padded array (`Slice`), then in a hash set (`HashSet`), and
//! finally densifies into bit-packed HyperLogLog registers
//! (`HyperLogLog`).  The first three representations count exactly: their
//! model is the set of stored codes, and `estimate` returns its size.  The
//! dense representation is modelled by its register values, with the zero
//! count and the scaled harmonic sum maintained alongside.
use vstd::prelude::*;

verus! {

use vstd::arithmetic::power2::pow2;

use crate::encode::decode_index;
use crate::encode::decode_rank;
use crate::encode::encode_hash;
use crate::encode::index_of_hash;
use crate::encode::rank_of_hash;
use crate::encode::spec_code;
use crate::encode::spec_code_index;
use crate::encode::spec_code_rank;
use crate::encode::spec_index;
use crate::encode::spec_rank;
use crate::encode::valid_params;
use crate::estmath::spec_dense_estimate;
use crate::hll::dense_wf;
use crate::hll::hll_insert;
use crate::hll::hll_new;
use crate::hll::lemma_summaries_bounds;
use crate::hll::spec_hll_len;
use crate::hll::spec_reg;
use crate::scan::contains_vectorized;
use crate::setrep::code_set_view;
use crate::setrep::set_footprint;
use crate::setrep::spec_set_footprint;
use crate::setrep::CodeSet;

/// The four storage layouts an estimator moves through as values
/// accumulate.
#[derive(Debug, PartialEq, Eq, Structural)]
pub enum Representation {
    Small,
    Slice,
    HashSet,
    HyperLogLog,
}

/// Position of a representation in the promotion order.
pub open spec fn rep_order(r: Representation) -> int {
    match r {
        Representation::Small => 0,
        Representation::Slice => 1,
        Representation::HashSet => 2,
        Representation::HyperLogLog => 3,
    }
}

/// Storage of an estimator.  `Small` packs up to two non-zero codes; the
/// `Slice` buffer has power-of-two capacity with a zeroed tail;
/// `HyperLogLog` carries its summaries next to the packed registers.
pub enum Store {
    Small { h1: u32, h2: u32 },
    Slice { len: usize, buf: Vec<u32> },
    HashSet { set: CodeSet },
    HyperLogLog { zeros: u32, sum: u128, regs: Vec<u32> },
}

/// A compact cardinality estimator with `2^P` registers of `W` bits.
pub struct CardinalityEstimator<const P: usize, const W: usize> {
    pub store: Store,
}

impl<const P: usize, const W: usize> CardinalityEstimator<P, W> {
    /// Representation tag of the current storage.
    pub open spec fn spec_rep(self) -> Representation {
        match self.store {
            Store::Small { .. } => Representation::Small,
            Store::Slice { .. } => Representation::Slice,
            Store::HashSet { .. } => Representation::HashSet,
            Store::HyperLogLog { .. } => Representation::HyperLogLog,
        }
    }

    /// Whether the current representation counts exactly.
    pub open spec fn is_exact(self) -> bool {
        self.spec_rep() != Representation::HyperLogLog
    }

    /// The set of codes an exact representation holds.
    pub open spec fn codes(self) -> Set<u32> {
        match self.store {
            Store::Small { h1, h2 } => if h1 == 0 {
                Set::empty()
            } else if h2 == 0 {
                Set::empty().insert(h1)
            } else {
                Set::empty().insert(h1).insert(h2)
            },
            Store::Slice { len, buf } => buf@.subrange(0, len as int).to_set(),
            Store::HashSet { set } => code_set_view(set),
            Store::HyperLogLog { .. } => Set::empty(),
        }
    }

    /// Register array of the dense representation.
    pub open spec fn regs_view(self) -> Seq<u32> {
        match self.store {
            Store::HyperLogLog { regs, .. } => regs@,
            _ => Seq::empty(),
        }
    }

    /// Value of dense register `i`.
    pub open spec fn reg(self, i: int) -> u32 {
        spec_reg(self.regs_view(), i, W as nat)
    }

    /// Zero-register count of the dense representation.
    pub open spec fn zeros_view(self) -> u32 {
        match self.store {
            Store::HyperLogLog { zeros, .. } => zeros,
            _ => 0,
        }
    }

    /// Scaled harmonic sum of the dense representation.
    pub open spec fn sum_view(self) -> u128 {
        match self.store {
            Store::HyperLogLog { sum, .. } => sum,
            _ => 0,
        }
    }

    /// Well-formedness of the storage.
    pub open spec fn wf(self) -> bool {
        &&& valid_params(P, W)
        &&& match self.store {
            Store::Small { h1, h2 } => {
                &&& h1 < 0x8000_0000u32
                &&& h2 < 0x8000_0000u32
                &&& (h1 == 0 ==> h2 == 0)
                &&& (h2 != 0 ==> h1 != h2)
            },
            Store::Slice { len, buf } => {
                &&& (buf@.len() == 4 || buf@.len() == 8 || buf@.len() == 16)
                &&& len <= buf@.len()
                &&& forall|i: int| 0 <= i < len ==> 0 < #[trigger] buf@[i] < 0x8000_0000u32
                &&& forall|i: int| len <= i < buf@.len() ==> buf@[i] == 0u32
                &&& forall|i: int, j: int| 0 <= i < j < len ==> buf@[i] != buf@[j]
            },
            Store::HashSet { set } => {
                &&& code_set_view(set).finite()
                &&& !code_set_view(set).contains(0u32)
                &&& forall|c: u32|
                    #[trigger] code_set_view(set).contains(c) ==> c < 0x8000_0000u32
            },
            Store::HyperLogLog { zeros, sum, regs } => dense_wf(
                regs@,
                zeros,
                sum,
                P as nat,
                W as nat,
            ),
        }
    }

    /// What `estimate` returns: the exact code count while the
    /// representation is exact, the dense formula afterwards.
    pub open spec fn spec_estimate(self) -> nat {
        if self.is_exact() {
            self.codes().len()
        } else {
            spec_dense_estimate(P as nat, self.zeros_view() as nat, self.sum_view() as nat)
        }
    }

    /// Creates a new, empty estimator in the `Small` representation.
    pub fn new() -> (r: Self)
        requires
            valid_params(P, W),
        ensures
            r.wf(),
            r.spec_rep() == Representation::Small,
            r.codes() == Set::<u32>::empty(),
            r.spec_estimate() == 0,
    {
        let r = CardinalityEstimator { store: Store::Small { h1: 0, h2: 0 } };
        proof {
            assert(r.codes() =~= Set::<u32>::empty());
        }
        r
    }

    /// Creates an estimator holding one hash.
    pub fn from_hash(hash: u64) -> (r: Self)
        requires
            valid_params(P, W),
        ensures
            r.wf(),
            r.spec_rep() == Representation::Small,
            r.codes() == Set::<u32>::empty().insert(spec_code(hash, P, W)),
            r.spec_estimate() == 1,
    {
        let mut r = Self::new();
        r.insert_hash(hash);
        proof {
            broadcast use vstd::set::group_set_axioms;

            assert(r.codes() =~= Set::<u32>::empty().insert(spec_code(hash, P, W)));
        }
        r
    }

    /// Return the representation tag of the estimator.
    pub fn representation(&self) -> (r: Representation)
        ensures
            r == self.spec_rep(),
    {
        match &self.store {
            Store::Small { .. } => Representation::Small,
            Store::Slice { .. } => Representation::Slice,
            Store::HashSet { .. } => Representation::HashSet,
            Store::HyperLogLog { .. } => Representation::HyperLogLog,
        }
    }
}


/// Registers `regs` are exactly the maxima of the decoded ranks of `cs`:
/// every code's rank is covered, and every non-zero register is attained
/// by some code.
pub open spec fn promoted_from_codes(regs: Seq<u32>, cs: Set<u32>, p: usize, w: usize) -> bool {
    &&& forall|c: u32|
        #[trigger] cs.contains(c) ==> spec_code_rank(c, w) <= spec_reg(
            regs,
            spec_code_index(c, p, w) as int,
            w as nat,
        )
    &&& forall|i: int|
        0 <= i < pow2(p as nat) ==> (#[trigger] spec_reg(regs, i, w as nat) == 0 || exists|c: u32|
            #[trigger] cs.contains(c) && spec_code_index(c, p, w) == i && spec_code_rank(c, w)
                == spec_reg(regs, i, w as nat))
}

impl<const P: usize, const W: usize> CardinalityEstimator<P, W> {
    /// Contract of inserting the code `c` into an exact representation:
    /// the code set grows by `c`, a present code changes nothing, the
    /// representation never moves backwards, `Small` holds at most two
    /// codes, `Slice` at most sixteen, and a promotion to the dense
    /// representation turns the codes into register maxima.
    pub open spec fn insert_code_post(pre: Self, post: Self, c: u32) -> bool {
        &&& post.wf()
        &&& rep_order(pre.spec_rep()) <= rep_order(post.spec_rep())
        &&& (post.is_exact() ==> post.codes() == pre.codes().insert(c))
        &&& (pre.codes().contains(c) ==> post == pre)
        &&& (!post.is_exact() ==> pre.spec_rep() == Representation::HashSet
            && post.spec_rep() == Representation::HyperLogLog && promoted_from_codes(
            post.regs_view(),
            pre.codes().insert(c),
            P,
            W,
        ))
        &&& (pre.spec_rep() == Representation::Small ==> rep_order(post.spec_rep()) <= 1)
        &&& (pre.spec_rep() == Representation::Small ==> (post.spec_rep()
            == Representation::Small <==> pre.codes().insert(c).len() <= 2))
        &&& (pre.spec_rep() == Representation::Slice ==> (post.spec_rep()
            == Representation::Slice <==> pre.codes().insert(c).len() <= 16))
    }

    /// Contract of `insert_hash`: on an exact estimator the sparse code of
    /// the hash is inserted; on a dense one the selected register rises to
    /// the hash's rank and everything else is untouched.
    pub open spec fn insert_hash_post(pre: Self, post: Self, h: u64) -> bool {
        if pre.is_exact() {
            Self::insert_code_post(pre, post, spec_code(h, P, W))
        } else {
            let i = spec_index(h, P) as int;
            let rk = spec_rank(h, P, W);
            &&& post.wf()
            &&& !post.is_exact()
            &&& forall|j: int|
                0 <= j < pow2(P as nat) && j != i ==> #[trigger] spec_reg(
                    post.regs_view(),
                    j,
                    W as nat,
                ) == spec_reg(pre.regs_view(), j, W as nat)
            &&& spec_reg(post.regs_view(), i, W as nat) == (if rk > spec_reg(
                pre.regs_view(),
                i,
                W as nat,
            ) {
                rk
            } else {
                spec_reg(pre.regs_view(), i, W as nat)
            })
            &&& (rk <= spec_reg(pre.regs_view(), i, W as nat) ==> post == pre)
        }
    }

    /// Insert an encoded hash into the `Small` representation, promoting
    /// to `Slice` on the third distinct code.
    fn insert_into_small(&mut self, c: u32)
        requires
            old(self).wf(),
            old(self).spec_rep() == Representation::Small,
            0 < c < 0x8000_0000u32,
        ensures
            Self::insert_code_post(*old(self), *final(self), c),
    {
        let (h1, h2) = match &self.store {
            Store::Small { h1, h2 } => (*h1, *h2),
            _ => (0u32, 0u32),
        };
        if h1 == 0 {
            self.store = Store::Small { h1: c, h2: 0 };
            proof {
                assert(final(self).codes() =~= old(self).codes().insert(c));
                lemma_small_set_len(final(self).codes(), c, c);
            }
            return ;
        }
        if h1 == c {
            proof {
                assert(final(self).codes() =~= old(self).codes().insert(c));
            }
            return ;
        }
        if h2 == 0 {
            self.store = Store::Small { h1, h2: c };
            proof {
                assert(final(self).codes() =~= old(self).codes().insert(c));
                lemma_small_set_len(final(self).codes(), h1, c);
            }
            return ;
        }
        if h2 == c {
            proof {
                assert(final(self).codes() =~= old(self).codes().insert(c));
            }
            return ;
        }
        let mut buf: Vec<u32> = Vec::new();
        buf.push(h1);
        buf.push(h2);
        buf.push(c);
        buf.push(0);
        self.store = Store::Slice { len: 3, buf };
        proof {
            let cs = final(self).codes();
            assert(buf@.subrange(0, 3) =~= seq![h1, h2, c]);
            assert(cs =~= old(self).codes().insert(c));
            assert(buf@.subrange(0, 3).no_duplicates());
            buf@.subrange(0, 3).unique_seq_to_set();
        }
    }

    /// Insert an encoded hash into the `Slice` representation: a lane-wise
    /// scan for duplicates, append into a free slot, double the buffer
    /// when full, and promotion to the hash-set at the seventeenth code.
    fn insert_into_slice(&mut self, c: u32)
        requires
            old(self).wf(),
            old(self).spec_rep() == Representation::Slice,
            0 < c < 0x8000_0000u32,
        ensures
            Self::insert_code_post(*old(self), *final(self), c),
    {
        let mut tmp = Store::Small { h1: 0, h2: 0 };
        core::mem::swap(&mut tmp, &mut self.store);
        match tmp {
            Store::Slice { len, mut buf } => {
                let ghost pre_codes = buf@.subrange(0, len as int).to_set();
                proof {
                    buf@.subrange(0, len as int).unique_seq_to_set();
                }
                let cap = buf.len();
                let found = if cap == 4 {
                    contains_vectorized::<4>(buf.as_slice(), c)
                } else {
                    contains_vectorized::<8>(buf.as_slice(), c)
                };
                proof {
                    assert(found == pre_codes.contains(c)) by {
                        if found {
                            let i = choose|i: int|
                                0 <= i < buf@.len() as int / (if cap == 4 {
                                    4int
                                } else {
                                    8int
                                }) * (if cap == 4 {
                                    4int
                                } else {
                                    8int
                                }) && buf@[i] == c;
                            assert(i < len);
                            assert(buf@.subrange(0, len as int)[i] == c);
                            assert(buf@.subrange(0, len as int).contains(c));
                        }
                        if pre_codes.contains(c) {
                            let i = choose|i: int|
                                0 <= i < len && buf@.subrange(0, len as int)[i] == c;
                            assert(buf@[i] == c);
                        }
                    }
                }
                if found {
                    self.store = Store::Slice { len, buf };
                    proof {
                        assert(final(self).codes() =~= old(self).codes().insert(c));
                        assert(*final(self) == *old(self));
                    }
                    return ;
                }
                if len < cap {
                    buf.set(len, c);
                    self.store = Store::Slice { len: len + 1, buf };
                    proof {
                        lemma_append_code(old(self).store->Slice_buf@, buf@, len as int, c);
                        buf@.subrange(0, len as int + 1).unique_seq_to_set();
                    }
                    return ;
                }
                if cap < 16 {
                    let newcap: usize = 2 * cap;
                    let mut nb: Vec<u32> = Vec::new();
                    let mut i: usize = 0;
                    while i < newcap
                        invariant
                            i <= newcap,
                            nb@.len() == i,
                            forall|k: int| 0 <= k < i ==> nb@[k] == 0u32,
                        decreases newcap - i,
                    {
                        nb.push(0u32);
                        i = i + 1;
                    }
                    let mut j: usize = 0;
                    while j < len
                        invariant
                            j <= len,
                            len < newcap <= 16,
                            len == buf@.len(),
                            nb@.len() == newcap,
                            forall|k: int| 0 <= k < j ==> nb@[k] == buf@[k],
                            forall|k: int| j <= k < newcap ==> nb@[k] == 0u32,
                        decreases len - j,
                    {
                        let v = buf[j];
                        nb.set(j, v);
                        j = j + 1;
                    }
                    nb.set(len, c);
                    self.store = Store::Slice { len: len + 1, buf: nb };
                    proof {
                        assert(nb@.subrange(0, len as int) =~= buf@.subrange(0, len as int));
                        lemma_append_code(buf@, nb@, len as int, c);
                        nb@.subrange(0, len as int + 1).unique_seq_to_set();
                    }
                    return ;
                }
                // Sixteen distinct codes and a new one: move to the hash-set.
                let mut set = CodeSet::with_capacity(17);
                let mut j: usize = 0;
                while j < len
                    invariant
                        j <= len,
                        len == 16,
                        old(self).wf(),
                        old(self).store == (Store::Slice { len: 16usize, buf: buf }),
                        code_set_view(set) =~= buf@.subrange(0, j as int).to_set(),
                        code_set_view(set).finite(),
                    decreases len - j,
                {
                    let v = buf[j];
                    set.insert(v);
                    proof {
                        assert(buf@.subrange(0, j as int + 1) =~= buf@.subrange(
                            0,
                            j as int,
                        ).push(buf@[j as int]));
                        lemma_to_set_push(buf@.subrange(0, j as int), buf@[j as int]);
                    }
                    j = j + 1;
                }
                set.insert(c);
                self.store = Store::HashSet { set };
                proof {
                    assert(buf@.subrange(0, 16) =~= buf@);
                    assert(final(self).codes() =~= old(self).codes().insert(c));
                    buf@.subrange(0, 16).unique_seq_to_set();
                    broadcast use vstd::set::group_set_axioms;

                    assert(old(self).codes().len() == 16);
                    assert(!old(self).codes().contains(c));
                    assert(old(self).codes().insert(c).len() == 17);
                }
            },
            _ => {
                proof {
                    assert(false);
                }
            },
        }
    }
}

impl<const P: usize, const W: usize> CardinalityEstimator<P, W> {
    /// Insert an encoded hash into the hash-set representation.  A present
    /// code is left alone; when the table is full and doubling it would
    /// outgrow the dense buffer, the codes densify instead.
    fn insert_into_set(&mut self, c: u32)
        requires
            old(self).wf(),
            old(self).spec_rep() == Representation::HashSet,
            0 < c < 0x8000_0000u32,
        ensures
            Self::insert_code_post(*old(self), *final(self), c),
    {
        proof {
            vstd::arithmetic::power2::lemma2_to64();
            if (P as nat) < 18 {
                vstd::arithmetic::power2::lemma_pow2_strictly_increases(P as nat, 18);
            }
            vstd::bits::lemma_usize_shl_is_mul(1usize, P);
        }
        let m: usize = 1usize << P;
        proof {
            assert((m as int) * (W as int) <= 0x180000) by (nonlinear_arith)
                requires
                    (m as int) <= 0x40000,
                    0 <= (W as int) <= 6,
            ;
        }
        let hll_words: usize = (m * W + 31) / 32 + 3;
        let mut tmp = Store::Small { h1: 0, h2: 0 };
        core::mem::swap(&mut tmp, &mut self.store);
        match tmp {
            Store::HashSet { mut set } => {
                if set.contains(c) {
                    self.store = Store::HashSet { set };
                    proof {
                        assert(final(self).codes() =~= old(self).codes().insert(c));
                        assert(*final(self) == *old(self));
                    }
                    return ;
                }
                let cap = set.capacity();
                let ln = set.len();
                if cap == ln && set_footprint(cap) > 2 * hll_words {
                    // Densify: fold every code's index and rank into fresh
                    // registers, then add the new code.
                    let codes_vec = set.to_vec();
                    let ghost view = code_set_view(set);
                    let (mut regs, mut zeros, mut sum) = hll_new::<P, W>();
                    let n = codes_vec.len();
                    let mut i: usize = 0;
                    while i < n
                        invariant
                            i <= n,
                            n == codes_vec@.len(),
                            valid_params(P, W),
                            dense_wf(regs@, zeros, sum, P as nat, W as nat),
                            forall|t: int|
                                0 <= t < i ==> spec_code_rank(#[trigger] codes_vec@[t], W)
                                    <= spec_reg(
                                    regs@,
                                    spec_code_index(codes_vec@[t], P, W) as int,
                                    W as nat,
                                ),
                            forall|j: int|
                                0 <= j < pow2(P as nat) ==> (#[trigger] spec_reg(
                                    regs@,
                                    j,
                                    W as nat,
                                ) == 0 || exists|t: int|
                                    0 <= t < i && spec_code_index(
                                        #[trigger] codes_vec@[t],
                                        P,
                                        W,
                                    ) == j && spec_code_rank(codes_vec@[t], W) == spec_reg(
                                        regs@,
                                        j,
                                        W as nat,
                                    )),
                        decreases n - i,
                    {
                        let code = codes_vec[i];
                        let ci = decode_index::<P, W>(code);
                        let cr = decode_rank::<P, W>(code);
                        let ghost regs_before = regs@;
                        hll_insert::<P, W>(&mut regs, &mut zeros, &mut sum, ci, cr);
                        proof {
                            lemma_fold_step(
                                regs_before,
                                regs@,
                                codes_vec@,
                                i as int,
                                P,
                                W,
                            );
                        }
                        i = i + 1;
                    }
                    let ci = decode_index::<P, W>(c);
                    let cr = decode_rank::<P, W>(c);
                    let ghost regs_before = regs@;
                    hll_insert::<P, W>(&mut regs, &mut zeros, &mut sum, ci, cr);
                    self.store = Store::HyperLogLog { zeros, sum, regs };
                    proof {
                        lemma_fold_close(
                            regs_before,
                            regs@,
                            codes_vec@,
                            view,
                            c,
                            P,
                            W,
                        );
                    }
                    return ;
                }
                set.insert(c);
                self.store = Store::HashSet { set };
                proof {
                    assert(final(self).codes() =~= old(self).codes().insert(c));
                }
            },
            _ => {
                proof {
                    assert(false);
                }
            },
        }
    }
}

impl<const P: usize, const W: usize> CardinalityEstimator<P, W> {
    /// Insert an encoded hash into whichever exact representation is
    /// active.
    fn insert_encoded_hash(&mut self, c: u32)
        requires
            old(self).wf(),
            old(self).is_exact(),
            0 < c < 0x8000_0000u32,
        ensures
            Self::insert_code_post(*old(self), *final(self), c),
    {
        let rep = self.representation();
        match rep {
            Representation::Small => self.insert_into_small(c),
            Representation::Slice => self.insert_into_slice(c),
            Representation::HashSet => self.insert_into_set(c),
            Representation::HyperLogLog => {
                proof {
                    assert(false);
                }
            },
        }
    }

    /// Insert a 64-bit hash.  Exact representations store its sparse code;
    /// the dense representation raises the selected register to the
    /// hash's rank.
    pub fn insert_hash(&mut self, hash: u64)
        requires
            old(self).wf(),
        ensures
            Self::insert_hash_post(*old(self), *final(self), hash),
    {
        let dense = matches!(&self.store, Store::HyperLogLog { .. });
        if dense {
            let idx = index_of_hash::<P, W>(hash);
            let rk = rank_of_hash::<P, W>(hash);
            let mut tmp = Store::Small { h1: 0, h2: 0 };
            core::mem::swap(&mut tmp, &mut self.store);
            match tmp {
                Store::HyperLogLog { mut zeros, mut sum, mut regs } => {
                    let grew = hll_insert::<P, W>(&mut regs, &mut zeros, &mut sum, idx, rk);
                    self.store = Store::HyperLogLog { zeros, sum, regs };
                    proof {
                        if !grew {
                            assert(final(self).store == old(self).store);
                            assert(*final(self) == *old(self));
                        }
                    }
                },
                _ => {
                    proof {
                        assert(false);
                    }
                },
            }
        } else {
            let c = encode_hash::<P, W>(hash);
            self.insert_encoded_hash(c);
        }
    }

    /// Insert any hashable item, hashed with the default 64-bit hasher.
    pub fn insert<T: core::hash::Hash + ?Sized>(&mut self, item: &T)
        requires
            old(self).wf(),
        ensures
            exists|h: u64| #[trigger] Self::insert_hash_post(*old(self), *final(self), h),
    {
        let h = hash_of_item(item);
        self.insert_hash(h);
    }

    /// Return the cardinality estimate: the exact number of distinct
    /// codes in the compact representations, the fixed-point
    /// linear-counting / harmonic-mean value in the dense one.
    pub fn estimate(&self) -> (r: usize)
        requires
            self.wf(),
        ensures
            r == self.spec_estimate(),
    {
        match &self.store {
            Store::Small { h1, h2 } => {
                proof {
                    broadcast use vstd::set::group_set_axioms;

                }
                if *h1 == 0 {
                    0
                } else if *h2 == 0 {
                    1
                } else {
                    2
                }
            },
            Store::Slice { len, buf } => {
                proof {
                    buf@.subrange(0, *len as int).unique_seq_to_set();
                }
                *len
            },
            Store::HashSet { set } => set.len(),
            Store::HyperLogLog { zeros, sum, regs } => {
                proof {
                    lemma_summaries_bounds(regs@, W as nat, pow2(P as nat));
                }
                crate::estmath::dense_estimate::<P, W>(*zeros, *sum)
            },
        }
    }
}

/// Registers `out` are the pointwise maxima of the registers `base` and
/// the decoded ranks of `cs`: nothing shrank, every code is covered, and
/// every grown register is attained by a code.
pub open spec fn merged_into_dense(
    base: Seq<u32>,
    cs: Set<u32>,
    out: Seq<u32>,
    p: usize,
    w: usize,
) -> bool {
    &&& forall|i: int|
        0 <= i < pow2(p as nat) ==> #[trigger] spec_reg(out, i, w as nat) >= spec_reg(
            base,
            i,
            w as nat,
        )
    &&& forall|c: u32|
        #[trigger] cs.contains(c) ==> spec_code_rank(c, w) <= spec_reg(
            out,
            spec_code_index(c, p, w) as int,
            w as nat,
        )
    &&& forall|i: int|
        0 <= i < pow2(p as nat) ==> (#[trigger] spec_reg(out, i, w as nat) == spec_reg(
            base,
            i,
            w as nat,
        ) || exists|c: u32|
            #[trigger] cs.contains(c) && spec_code_index(c, p, w) == i && spec_code_rank(c, w)
                == spec_reg(out, i, w as nat))
}

/// Raising one register to a code's rank extends a promoted-from-codes
/// characterisation by that code.
proof fn lemma_promoted_extend(
    before: Seq<u32>,
    after: Seq<u32>,
    cs: Set<u32>,
    c: u32,
    p: usize,
    w: usize,
)
    requires
        valid_params(p, w),
        promoted_from_codes(before, cs, p, w),
        (spec_code_index(c, p, w) as int) < pow2(p as nat),
        spec_reg(after, spec_code_index(c, p, w) as int, w as nat) == (if spec_code_rank(c, w)
            > spec_reg(before, spec_code_index(c, p, w) as int, w as nat) {
            spec_code_rank(c, w)
        } else {
            spec_reg(before, spec_code_index(c, p, w) as int, w as nat)
        }),
        forall|j: int|
            0 <= j < pow2(p as nat) && j != spec_code_index(c, p, w) as int ==> #[trigger]
                spec_reg(after, j, w as nat) == spec_reg(before, j, w as nat),
    ensures
        promoted_from_codes(after, cs.insert(c), p, w),
{
    let ci = spec_code_index(c, p, w) as int;
    assert forall|x: u32| #[trigger] cs.insert(c).contains(x) implies spec_code_rank(x, w)
        <= spec_reg(after, spec_code_index(x, p, w) as int, w as nat) by {
        crate::encode::lemma_code_index_bound(x, p, w);
        let jx = spec_code_index(x, p, w) as int;
        if jx == ci {
            assert(spec_reg(after, jx, w as nat) >= spec_reg(before, jx, w as nat));
        } else {
            assert(spec_reg(after, jx, w as nat) == spec_reg(before, jx, w as nat));
        }
        if x != c {
            assert(cs.contains(x));
        }
    }
    assert forall|i: int| 0 <= i < pow2(p as nat) implies (#[trigger] spec_reg(after, i, w as nat)
        == 0 || exists|x: u32|
        #[trigger] cs.insert(c).contains(x) && spec_code_index(x, p, w) == i && spec_code_rank(
            x,
            w,
        ) == spec_reg(after, i, w as nat)) by {
        if i == ci && spec_code_rank(c, w) > spec_reg(before, ci, w as nat) {
            assert(cs.insert(c).contains(c) && spec_code_index(c, p, w) == i && spec_code_rank(
                c,
                w,
            ) == spec_reg(after, i, w as nat));
        } else {
            assert(spec_reg(after, i, w as nat) == spec_reg(before, i, w as nat));
            if spec_reg(before, i, w as nat) != 0 {
                let x = choose|x: u32|
                    #[trigger] cs.contains(x) && spec_code_index(x, p, w) == i && spec_code_rank(
                        x,
                        w,
                    ) == spec_reg(before, i, w as nat);
                assert(cs.insert(c).contains(x) && spec_code_index(x, p, w) == i
                    && spec_code_rank(x, w) == spec_reg(after, i, w as nat));
            }
        }
    }
}

/// Raising one register to a code's rank extends a merged-into-dense
/// characterisation by that code.
proof fn lemma_merged_extend(
    base: Seq<u32>,
    before: Seq<u32>,
    after: Seq<u32>,
    cs: Set<u32>,
    c: u32,
    p: usize,
    w: usize,
)
    requires
        valid_params(p, w),
        merged_into_dense(base, cs, before, p, w),
        (spec_code_index(c, p, w) as int) < pow2(p as nat),
        spec_reg(after, spec_code_index(c, p, w) as int, w as nat) == (if spec_code_rank(c, w)
            > spec_reg(before, spec_code_index(c, p, w) as int, w as nat) {
            spec_code_rank(c, w)
        } else {
            spec_reg(before, spec_code_index(c, p, w) as int, w as nat)
        }),
        forall|j: int|
            0 <= j < pow2(p as nat) && j != spec_code_index(c, p, w) as int ==> #[trigger]
                spec_reg(after, j, w as nat) == spec_reg(before, j, w as nat),
    ensures
        merged_into_dense(base, cs.insert(c), after, p, w),
{
    let ci = spec_code_index(c, p, w) as int;
    assert forall|x: u32| #[trigger] cs.insert(c).contains(x) implies spec_code_rank(x, w)
        <= spec_reg(after, spec_code_index(x, p, w) as int, w as nat) by {
        crate::encode::lemma_code_index_bound(x, p, w);
        let jx = spec_code_index(x, p, w) as int;
        if jx == ci {
            assert(spec_reg(after, jx, w as nat) >= spec_reg(before, jx, w as nat));
        } else {
            assert(spec_reg(after, jx, w as nat) == spec_reg(before, jx, w as nat));
        }
        if x != c {
            assert(cs.contains(x));
        }
    }
    assert forall|i: int| 0 <= i < pow2(p as nat) implies (#[trigger] spec_reg(after, i, w as nat)
        == spec_reg(base, i, w as nat) || exists|x: u32|
        #[trigger] cs.insert(c).contains(x) && spec_code_index(x, p, w) == i && spec_code_rank(
            x,
            w,
        ) == spec_reg(after, i, w as nat)) by {
        if i == ci && spec_code_rank(c, w) > spec_reg(before, ci, w as nat) {
            assert(cs.insert(c).contains(c) && spec_code_index(c, p, w) == i && spec_code_rank(
                c,
                w,
            ) == spec_reg(after, i, w as nat));
        } else {
            assert(spec_reg(after, i, w as nat) == spec_reg(before, i, w as nat));
            if spec_reg(before, i, w as nat) != spec_reg(base, i, w as nat) {
                let x = choose|x: u32|
                    #[trigger] cs.contains(x) && spec_code_index(x, p, w) == i && spec_code_rank(
                        x,
                        w,
                    ) == spec_reg(before, i, w as nat);
                assert(cs.insert(c).contains(x) && spec_code_index(x, p, w) == i
                    && spec_code_rank(x, w) == spec_reg(after, i, w as nat));
            }
        }
    }
}

impl<const P: usize, const W: usize> CardinalityEstimator<P, W> {
    /// Contract of absorbing one code into an estimator of any
    /// representation.
    pub open spec fn absorb_code_post(pre: Self, post: Self, c: u32) -> bool {
        if pre.is_exact() {
            Self::insert_code_post(pre, post, c)
        } else {
            let i = spec_code_index(c, P, W) as int;
            let rk = spec_code_rank(c, W);
            &&& post.wf()
            &&& !post.is_exact()
            &&& forall|j: int|
                0 <= j < pow2(P as nat) && j != i ==> #[trigger] spec_reg(
                    post.regs_view(),
                    j,
                    W as nat,
                ) == spec_reg(pre.regs_view(), j, W as nat)
            &&& spec_reg(post.regs_view(), i, W as nat) == (if rk > spec_reg(
                pre.regs_view(),
                i,
                W as nat,
            ) {
                rk
            } else {
                spec_reg(pre.regs_view(), i, W as nat)
            })
        }
    }

    /// Absorb one encoded hash, whatever the current representation.
    fn absorb_code(&mut self, c: u32)
        requires
            old(self).wf(),
            0 < c < 0x8000_0000u32,
        ensures
            Self::absorb_code_post(*old(self), *final(self), c),
    {
        let dense = matches!(&self.store, Store::HyperLogLog { .. });
        if dense {
            let ci = decode_index::<P, W>(c);
            let cr = decode_rank::<P, W>(c);
            let mut tmp = Store::Small { h1: 0, h2: 0 };
            core::mem::swap(&mut tmp, &mut self.store);
            match tmp {
                Store::HyperLogLog { mut zeros, mut sum, mut regs } => {
                    hll_insert::<P, W>(&mut regs, &mut zeros, &mut sum, ci, cr);
                    self.store = Store::HyperLogLog { zeros, sum, regs };
                },
                _ => {
                    proof {
                        assert(false);
                    }
                },
            }
        } else {
            self.insert_encoded_hash(c);
        }
    }

    /// Collect the codes of an exact representation into a vector.
    fn codes_vec(&self) -> (v: Vec<u32>)
        requires
            self.wf(),
            self.is_exact(),
        ensures
            forall|i: int| 0 <= i < v@.len() ==> self.codes().contains(#[trigger] v@[i]),
            forall|x: u32| self.codes().contains(x) ==> #[trigger] v@.contains(x),
            forall|i: int| 0 <= i < v@.len() ==> 0 < #[trigger] v@[i] < 0x8000_0000u32,
            v@.len() == 0 ==> self.codes() =~= Set::<u32>::empty(),
    {
        let mut v: Vec<u32> = Vec::new();
        match &self.store {
            Store::Small { h1, h2 } => {
                if *h1 != 0 {
                    v.push(*h1);
                }
                if *h2 != 0 {
                    v.push(*h2);
                }
                proof {
                    if *h1 != 0 && *h2 != 0 {
                        assert(v@[0] == *h1 && v@[1] == *h2);
                        assert(v@.contains(*h1) && v@.contains(*h2));
                        assert forall|x: u32| self.codes().contains(x) implies v@.contains(
                            x,
                        ) by {
                            assert(x == *h1 || x == *h2);
                        }
                    } else if *h1 != 0 {
                        assert(v@[0] == *h1);
                        assert(v@.contains(*h1));
                        assert forall|x: u32| self.codes().contains(x) implies v@.contains(
                            x,
                        ) by {
                            assert(x == *h1);
                        }
                    } else {
                        assert(self.codes() =~= Set::<u32>::empty());
                    }
                }
            },
            Store::Slice { len, buf } => {
                let mut i: usize = 0;
                let n = *len;
                while i < n
                    invariant
                        i <= n,
                        n <= buf@.len(),
                        v@ =~= buf@.subrange(0, i as int),
                    decreases n - i,
                {
                    let x = buf[i];
                    v.push(x);
                    proof {
                        assert(v@ =~= buf@.subrange(0, i as int + 1));
                    }
                    i = i + 1;
                }
                proof {
                    assert forall|x: u32| self.codes().contains(x) implies v@.contains(x) by {
                        let t = choose|t: int|
                            0 <= t < n && buf@.subrange(0, n as int)[t] == x;
                        assert(v@[t] == x);
                    }
                    assert forall|i: int| 0 <= i < v@.len() implies self.codes().contains(
                        #[trigger] v@[i],
                    ) by {
                        assert(buf@.subrange(0, n as int)[i] == v@[i]);
                        assert(buf@.subrange(0, n as int).contains(v@[i]));
                    }
                }
            },
            Store::HashSet { set } => {
                v = set.to_vec();
                proof {
                    if v@.len() == 0 {
                        assert forall|x: u32| !self.codes().contains(x) by {
                            if self.codes().contains(x) {
                                assert(v@.contains(x));
                            }
                        }
                        assert(self.codes() =~= Set::<u32>::empty());
                    }
                }
            },
            Store::HyperLogLog { .. } => {
                proof {
                    assert(false);
                }
            },
        }
        v
    }

    /// Contract of absorbing a set `cs` of codes: an exact estimator ends
    /// with the union of the code sets unless it densified along the way,
    /// in which case the registers are the maxima of the union; a dense
    /// estimator folds `cs` into its registers.
    pub open spec fn absorb_set_post(pre: Self, post: Self, cs: Set<u32>) -> bool {
        &&& post.wf()
        &&& rep_order(pre.spec_rep()) <= rep_order(post.spec_rep())
        &&& (pre.is_exact() && post.is_exact() ==> post.codes() == pre.codes().union(cs))
        &&& (pre.is_exact() && !post.is_exact() ==> promoted_from_codes(
            post.regs_view(),
            pre.codes().union(cs),
            P,
            W,
        ))
        &&& (!pre.is_exact() ==> !post.is_exact() && merged_into_dense(
            pre.regs_view(),
            cs,
            post.regs_view(),
            P,
            W,
        ))
    }

    /// Absorb every code of `v`.
    fn absorb_all(&mut self, v: &Vec<u32>)
        requires
            old(self).wf(),
            forall|i: int| 0 <= i < v@.len() ==> 0 < #[trigger] v@[i] < 0x8000_0000u32,
        ensures
            Self::absorb_set_post(*old(self), *final(self), v@.to_set()),
            v@.len() == 0 ==> *final(self) == *old(self),
    {
        let n = v.len();
        let mut i: usize = 0;
        while i < n
            invariant
                i <= n,
                n == v@.len(),
                forall|t: int| 0 <= t < v@.len() ==> 0 < #[trigger] v@[t] < 0x8000_0000u32,
                self.wf(),
                old(self).wf(),
                rep_order(old(self).spec_rep()) <= rep_order(self.spec_rep()),
                old(self).is_exact() && self.is_exact() ==> self.codes() == old(
                    self,
                ).codes().union(v@.subrange(0, i as int).to_set()),
                old(self).is_exact() && !self.is_exact() ==> promoted_from_codes(
                    self.regs_view(),
                    old(self).codes().union(v@.subrange(0, i as int).to_set()),
                    P,
                    W,
                ),
                !old(self).is_exact() ==> !self.is_exact() && merged_into_dense(
                    old(self).regs_view(),
                    v@.subrange(0, i as int).to_set(),
                    self.regs_view(),
                    P,
                    W,
                ),
                i == 0 ==> *self == *old(self),
            decreases n - i,
        {
            let ghost prev = *self;
            let ghost prefix = v@.subrange(0, i as int).to_set();
            let c = v[i];
            self.absorb_code(c);
            proof {
                let vi = v@[i as int];
                assert(v@.subrange(0, i as int + 1) =~= v@.subrange(0, i as int).push(vi));
                lemma_to_set_push(v@.subrange(0, i as int), v@[i as int]);
                crate::encode::lemma_code_index_bound(c, P, W);
                if old(self).is_exact() {
                    if prev.is_exact() {
                        if self.is_exact() {
                            assert(self.codes() =~= old(self).codes().union(
                                prefix.insert(c),
                            ));
                        } else {
                            assert(prev.codes().insert(c) =~= old(self).codes().union(
                                prefix.insert(c),
                            ));
                        }
                    } else {
                        lemma_promoted_extend(
                            prev.regs_view(),
                            self.regs_view(),
                            old(self).codes().union(prefix),
                            c,
                            P,
                            W,
                        );
                        assert(old(self).codes().union(prefix).insert(c) =~= old(
                            self,
                        ).codes().union(prefix.insert(c)));
                    }
                } else {
                    lemma_merged_extend(
                        old(self).regs_view(),
                        prev.regs_view(),
                        self.regs_view(),
                        prefix,
                        c,
                        P,
                        W,
                    );
                    assert(prefix.insert(c) =~= v@.subrange(0, i as int + 1).to_set());
                }
            }
            i = i + 1;
        }
        proof {
            assert(v@.subrange(0, n as int) =~= v@);
        }
    }
}

/// Copy a `u32` buffer.
fn clone_u32_vec(src: &Vec<u32>) -> (r: Vec<u32>)
    ensures
        r@ == src@,
{
    let n = src.len();
    let mut r: Vec<u32> = Vec::new();
    let mut i: usize = 0;
    while i < n
        invariant
            i <= n,
            n == src@.len(),
            r@ =~= src@.subrange(0, i as int),
        decreases n - i,
    {
        let x = src[i];
        r.push(x);
        proof {
            assert(r@ =~= src@.subrange(0, i as int + 1));
        }
        i = i + 1;
    }
    proof {
        assert(src@.subrange(0, n as int) =~= src@);
    }
    r
}

impl<const P: usize, const W: usize> CardinalityEstimator<P, W> {
    /// Contract of `merge`: merging an empty estimator changes nothing;
    /// exact contents unite; a dense side folds the other side's codes
    /// into its registers; two dense sides take pointwise register
    /// maxima.  The representation never moves backwards.
    pub open spec fn merge_post(pre: Self, rhs: Self, post: Self) -> bool {
        &&& post.wf()
        &&& rep_order(pre.spec_rep()) <= rep_order(post.spec_rep())
        &&& (rhs.spec_rep() == Representation::Small && rhs.codes() == Set::<u32>::empty()
            ==> post == pre)
        &&& (pre.is_exact() && rhs.is_exact() && post.is_exact() ==> post.codes()
            == pre.codes().union(rhs.codes()))
        &&& (pre.is_exact() && rhs.is_exact() && !post.is_exact() ==> promoted_from_codes(
            post.regs_view(),
            pre.codes().union(rhs.codes()),
            P,
            W,
        ))
        &&& (pre.is_exact() && !rhs.is_exact() ==> !post.is_exact() && merged_into_dense(
            rhs.regs_view(),
            pre.codes(),
            post.regs_view(),
            P,
            W,
        ))
        &&& (!pre.is_exact() && rhs.is_exact() ==> !post.is_exact() && merged_into_dense(
            pre.regs_view(),
            rhs.codes(),
            post.regs_view(),
            P,
            W,
        ))
        &&& (!pre.is_exact() && !rhs.is_exact() ==> !post.is_exact() && forall|i: int|
            0 <= i < pow2(P as nat) ==> #[trigger] spec_reg(post.regs_view(), i, W as nat) == (
            if spec_reg(rhs.regs_view(), i, W as nat) > spec_reg(pre.regs_view(), i, W as nat) {
                spec_reg(rhs.regs_view(), i, W as nat)
            } else {
                spec_reg(pre.regs_view(), i, W as nat)
            }))
    }

    /// Merge another estimator into this one.
    pub fn merge(&mut self, rhs: &Self)
        requires
            old(self).wf(),
            rhs.wf(),
        ensures
            Self::merge_post(*old(self), *rhs, *final(self)),
    {
        let rhs_dense = matches!(&rhs.store, Store::HyperLogLog { .. });
        if !rhs_dense {
            let v = rhs.codes_vec();
            proof {
                assert forall|x: u32| v@.to_set().contains(x) implies rhs.codes().contains(
                    x,
                ) by {
                    let t = choose|t: int| 0 <= t < v@.len() && v@[t] == x;
                }
                assert forall|x: u32| rhs.codes().contains(x) implies v@.to_set().contains(
                    x,
                ) by {
                    assert(v@.contains(x));
                    let t = choose|t: int| 0 <= t < v@.len() && v@[t] == x;
                    assert(v@.to_set().contains(v@[t]));
                }
                assert(v@.to_set() =~= rhs.codes());
                if rhs.spec_rep() == Representation::Small && rhs.codes() == Set::<
                    u32,
                >::empty() {
                    assert(v@.len() == 0) by {
                        if v@.len() > 0 {
                            assert(rhs.codes().contains(v@[0]));
                        }
                    }
                }
            }
            self.absorb_all(&v);
            return ;
        }
        let self_dense = matches!(&self.store, Store::HyperLogLog { .. });
        if !self_dense {
            // Copy the dense side, then fold this side's codes into it.
            let v = self.codes_vec();
            proof {
                assert forall|x: u32| v@.to_set().contains(x) implies old(
                    self,
                ).codes().contains(x) by {
                    let t = choose|t: int| 0 <= t < v@.len() && v@[t] == x;
                }
                assert forall|x: u32| old(self).codes().contains(x) implies v@.to_set().contains(
                    x,
                ) by {
                    assert(v@.contains(x));
                    let t = choose|t: int| 0 <= t < v@.len() && v@[t] == x;
                    assert(v@.to_set().contains(v@[t]));
                }
                assert(v@.to_set() =~= old(self).codes());
            }
            match &rhs.store {
                Store::HyperLogLog { zeros, sum, regs } => {
                    let nregs = clone_u32_vec(regs);
                    self.store = Store::HyperLogLog { zeros: *zeros, sum: *sum, regs: nregs };
                    self.absorb_all(&v);
                },
                _ => {
                    proof {
                        assert(false);
                    }
                },
            }
            return ;
        }
        // Both dense: pointwise register maxima.
        proof {
            vstd::arithmetic::power2::lemma2_to64();
            if (P as nat) < 18 {
                vstd::arithmetic::power2::lemma_pow2_strictly_increases(P as nat, 18);
            }
            vstd::bits::lemma_usize_shl_is_mul(1usize, P);
        }
        let m: usize = 1usize << P;
        let mut tmp = Store::Small { h1: 0, h2: 0 };
        core::mem::swap(&mut tmp, &mut self.store);
        match tmp {
            Store::HyperLogLog { mut zeros, mut sum, mut regs } => {
                match &rhs.store {
                    Store::HyperLogLog { regs: rregs, .. } => {
                        let mut i: usize = 0;
                        while i < m
                            invariant
                                i <= m,
                                m == pow2(P as nat),
                                m <= 0x40000,
                                valid_params(P, W),
                                dense_wf(regs@, zeros, sum, P as nat, W as nat),
                                rhs.wf(),
                                rhs.store matches Store::HyperLogLog { regs: rr, .. }
                                    && rr@ == rregs@,
                                rregs@.len() == crate::hll::spec_hll_len(P as nat, W as nat),
                                forall|j: int|
                                    i <= j < pow2(P as nat) ==> #[trigger] spec_reg(
                                        regs@,
                                        j,
                                        W as nat,
                                    ) == spec_reg(old(self).regs_view(), j, W as nat),
                                forall|j: int|
                                    0 <= j < i ==> #[trigger] spec_reg(regs@, j, W as nat) == (
                                    if spec_reg(rregs@, j, W as nat) > spec_reg(
                                        old(self).regs_view(),
                                        j,
                                        W as nat,
                                    ) {
                                        spec_reg(rregs@, j, W as nat)
                                    } else {
                                        spec_reg(old(self).regs_view(), j, W as nat)
                                    }),
                            decreases m - i,
                        {
                            let r2 = crate::hll::get_register::<P, W>(rregs, i as u32);
                            hll_insert::<P, W>(&mut regs, &mut zeros, &mut sum, i as u32, r2);
                            i = i + 1;
                        }
                        self.store = Store::HyperLogLog { zeros, sum, regs };
                    },
                    _ => {
                        proof {
                            assert(false);
                        }
                    },
                }
            },
            _ => {
                proof {
                    assert(false);
                }
            },
        }
    }
}

/// Element-wise comparison of two `u32` buffers.
fn vec_eq(a: &Vec<u32>, b: &Vec<u32>) -> (r: bool)
    ensures
        r == (a@ == b@),
{
    if a.len() != b.len() {
        proof {
            assert(a@.len() != b@.len());
        }
        return false;
    }
    let n = a.len();
    let mut i: usize = 0;
    while i < n
        invariant
            i <= n,
            n == a@.len() == b@.len(),
            forall|k: int| 0 <= k < i ==> a@[k] == b@[k],
        decreases n - i,
    {
        if a[i] != b[i] {
            return false;
        }
        i = i + 1;
    }
    proof {
        assert(a@ =~= b@);
    }
    true
}

impl<const P: usize, const W: usize> CardinalityEstimator<P, W> {
    /// Capacity of the slice buffer, zero for other representations.
    pub open spec fn slice_capacity(self) -> nat {
        match self.store {
            Store::Slice { buf, .. } => buf@.len(),
            _ => 0,
        }
    }

    /// Two estimators hold the same abstract state: the same tag and the
    /// same contents under it.
    pub open spec fn congruent(a: Self, b: Self) -> bool {
        &&& a.spec_rep() == b.spec_rep()
        &&& match (a.store, b.store) {
            (Store::Small { h1: x1, h2: x2 }, Store::Small { h1: y1, h2: y2 }) => x1 == y1 && x2
                == y2,
            (Store::Slice { len: l1, buf: b1 }, Store::Slice { len: l2, buf: b2 }) => l1 == l2
                && b1@ == b2@,
            (Store::HashSet { set: s1 }, Store::HashSet { set: s2 }) => code_set_view(s1)
                == code_set_view(s2),
            (
                Store::HyperLogLog { zeros: z1, sum: m1, regs: r1 },
                Store::HyperLogLog { zeros: z2, sum: m2, regs: r2 },
            ) => z1 == z2 && m1 == m2 && r1@ == r2@,
            _ => false,
        }
    }

    /// Congruent estimators agree on everything the contracts speak of.
    pub proof fn lemma_congruent_properties(a: Self, b: Self)
        requires
            Self::congruent(a, b),
        ensures
            a.spec_rep() == b.spec_rep(),
            a.codes() == b.codes(),
            a.regs_view() == b.regs_view(),
            a.zeros_view() == b.zeros_view(),
            a.sum_view() == b.sum_view(),
            a.wf() ==> b.wf(),
            a.spec_estimate() == b.spec_estimate(),
    {
        match (a.store, b.store) {
            (Store::Slice { len: l1, buf: b1 }, Store::Slice { len: l2, buf: b2 }) => {
                assert(a.codes() =~= b.codes());
            },
            _ => {},
        }
    }

    /// Report the memory footprint: the tagged word plus the bytes of the
    /// owned buffer.
    pub fn size_of(&self) -> (r: usize)
        requires
            self.wf(),
        ensures
            self.spec_rep() == Representation::Small ==> r == 8,
            self.spec_rep() == Representation::Slice ==> r == 8 + 4 * self.slice_capacity(),
            self.spec_rep() == Representation::HyperLogLog ==> r == 8 + 4 * spec_hll_len(
                P as nat,
                W as nat,
            ),
            self.spec_rep() == Representation::HashSet ==> exists|c: nat|
                c >= self.codes().len() && r == 8 + #[trigger] crate::setrep::spec_set_footprint(
                    c,
                ) || r == usize::MAX,
    {
        match &self.store {
            Store::Small { .. } => 8,
            Store::Slice { buf, .. } => 8 + 4 * buf.len(),
            Store::HashSet { set } => {
                let c = set.capacity();
                let fp = set_footprint(c);
                if fp > usize::MAX - 8 {
                    usize::MAX
                } else {
                    proof {
                        assert(c as nat >= self.codes().len() && 8 + fp == 8
                            + crate::setrep::spec_set_footprint(c as nat));
                    }
                    8 + fp
                }
            },
            Store::HyperLogLog { regs, .. } => {
                proof {
                    vstd::arithmetic::power2::lemma2_to64();
                    if (P as nat) < 18 {
                        vstd::arithmetic::power2::lemma_pow2_strictly_increases(P as nat, 18);
                    }
                    assert(pow2(P as nat) * (W as nat) <= 0x40000 * 6) by (nonlinear_arith)
                        requires
                            pow2(P as nat) <= 0x40000,
                            0 <= (W as nat) <= 6,
                    ;
                    vstd::arithmetic::div_mod::lemma_div_is_ordered(
                        (pow2(P as nat) * (W as nat) + 31) as int,
                        (0x40000 * 6 + 31) as int,
                        32,
                    );
                }
                8 + 4 * regs.len()
            },
        }
    }
}

impl<const P: usize, const W: usize> Default for CardinalityEstimator<P, W> {
    /// An empty estimator in the `Small` representation.
    fn default() -> (r: Self)
        ensures
            r.spec_rep() == Representation::Small,
            r.codes() == Set::<u32>::empty(),
            valid_params(P, W) ==> r.wf(),
    {
        let r = CardinalityEstimator { store: Store::Small { h1: 0, h2: 0 } };
        proof {
            assert(r.codes() =~= Set::<u32>::empty());
        }
        r
    }
}

impl<const P: usize, const W: usize> Clone for CardinalityEstimator<P, W> {
    /// A deep copy holding the same abstract state.
    fn clone(&self) -> (r: Self)
        ensures
            Self::congruent(r, *self),
    {
        match &self.store {
            Store::Small { h1, h2 } => CardinalityEstimator {
                store: Store::Small { h1: *h1, h2: *h2 },
            },
            Store::Slice { len, buf } => CardinalityEstimator {
                store: Store::Slice { len: *len, buf: clone_u32_vec(buf) },
            },
            Store::HashSet { set } => CardinalityEstimator {
                store: Store::HashSet { set: set.duplicate() },
            },
            Store::HyperLogLog { zeros, sum, regs } => CardinalityEstimator {
                store: Store::HyperLogLog {
                    zeros: *zeros,
                    sum: *sum,
                    regs: clone_u32_vec(regs),
                },
            },
        }
    }
}

impl<const P: usize, const W: usize> PartialEq for CardinalityEstimator<P, W> {
    /// Structural equality: the same tag and the same contents.
    fn eq(&self, other: &Self) -> (r: bool) {
        match (&self.store, &other.store) {
            (Store::Small { h1: x1, h2: x2 }, Store::Small { h1: y1, h2: y2 }) => *x1 == *y1
                && *x2 == *y2,
            (Store::Slice { len: l1, buf: b1 }, Store::Slice { len: l2, buf: b2 }) => *l1 == *l2
                && vec_eq(b1, b2),
            (Store::HashSet { set: s1 }, Store::HashSet { set: s2 }) => s1.set_eq(s2),
            (
                Store::HyperLogLog { zeros: z1, sum: m1, regs: r1 },
                Store::HyperLogLog { zeros: z2, sum: m2, regs: r2 },
            ) => *z1 == *z2 && *m1 == *m2 && vec_eq(r1, r2),
            _ => false,
        }
    }
}

impl<const P: usize, const W: usize> vstd::std_specs::cmp::PartialEqSpecImpl for CardinalityEstimator<P, W> {
    open spec fn obeys_eq_spec() -> bool {
        true
    }

    open spec fn eq_spec(&self, other: &Self) -> bool {
        Self::congruent(*self, *other)
    }
}

/// Hashes an item with the default hasher.  Relies on `wyhash::WyHash`
/// (unseeded, deterministic) fed through std's `Hash`.
#[verifier::external_body]
fn hash_of_item<T: core::hash::Hash + ?Sized>(item: &T) -> u64 {
    let mut hasher: wyhash::WyHash = Default::default();
    core::hash::Hash::hash(item, &mut hasher);
    core::hash::Hasher::finish(&hasher)
}

/// A set of one or two distinct codes has that many elements.
proof fn lemma_small_set_len(s: Set<u32>, a: u32, b: u32)
    requires
        s == Set::<u32>::empty().insert(a) || s == Set::<u32>::empty().insert(a).insert(b),
    ensures
        s.len() <= 2,
{
    broadcast use vstd::set::group_set_axioms;

    assert(Set::<u32>::empty().insert(a).len() <= 1);
    assert(Set::<u32>::empty().insert(a).insert(b).len() <= 2);
}

/// Appending a fresh code to the prefix of a zero-padded buffer grows the
/// code set by exactly that code.
proof fn lemma_append_code(oldb: Seq<u32>, newb: Seq<u32>, len: int, c: u32)
    requires
        0 <= len < newb.len(),
        len <= oldb.len(),
        newb.subrange(0, len) =~= oldb.subrange(0, len),
        newb[len] == c,
    ensures
        newb.subrange(0, len + 1).to_set() == oldb.subrange(0, len).to_set().insert(c),
{
    assert(newb.subrange(0, len + 1) =~= newb.subrange(0, len).push(c));
    lemma_to_set_push(newb.subrange(0, len), c);
    assert(newb.subrange(0, len + 1).to_set() =~= oldb.subrange(0, len).to_set().insert(c));
}

/// `to_set` of a pushed sequence is `insert` on the set.
proof fn lemma_to_set_push(s: Seq<u32>, c: u32)
    ensures
        s.push(c).to_set() == s.to_set().insert(c),
{
    broadcast use vstd::set::group_set_axioms;

    assert forall|x: u32| s.push(c).to_set().contains(x) implies s.to_set().contains(x) || x
        == c by {
        let i = choose|i: int| 0 <= i < s.push(c).len() && s.push(c)[i] == x;
        if i < s.len() {
            assert(s[i] == x);
            assert(s.contains(x));
        }
    }
    assert forall|x: u32| s.to_set().contains(x) implies s.push(c).to_set().contains(x) by {
        let i = choose|i: int| 0 <= i < s.len() && s[i] == x;
        assert(s.push(c)[i] == x);
        assert(s.push(c).contains(x));
    }
    assert(s.push(c).contains(c)) by {
        assert(s.push(c)[s.len() as int] == c);
    }
    assert(s.push(c).to_set() =~= s.to_set().insert(c));
}


/// One step of folding codes into fresh registers: after raising the
/// register of code `v[i]` to its rank, the first `i + 1` codes are
/// covered and every non-zero register is still attained by a processed
/// code.
proof fn lemma_fold_step(before: Seq<u32>, after: Seq<u32>, v: Seq<u32>, i: int, p: usize, w: usize)
    requires
        valid_params(p, w),
        0 <= i < v.len(),
        (spec_code_index(v[i], p, w) as int) < pow2(p as nat),
        spec_reg(after, spec_code_index(v[i], p, w) as int, w as nat) == (if spec_code_rank(
            v[i],
            w,
        ) > spec_reg(before, spec_code_index(v[i], p, w) as int, w as nat) {
            spec_code_rank(v[i], w)
        } else {
            spec_reg(before, spec_code_index(v[i], p, w) as int, w as nat)
        }),
        forall|j: int|
            0 <= j < pow2(p as nat) && j != spec_code_index(v[i], p, w) as int ==> #[trigger]
                spec_reg(after, j, w as nat) == spec_reg(before, j, w as nat),
        forall|t: int|
            0 <= t < i ==> spec_code_rank(#[trigger] v[t], w) <= spec_reg(
                before,
                spec_code_index(v[t], p, w) as int,
                w as nat,
            ),
        forall|j: int|
            0 <= j < pow2(p as nat) ==> (#[trigger] spec_reg(before, j, w as nat) == 0 || exists|
                t: int,
            |
                0 <= t < i && spec_code_index(#[trigger] v[t], p, w) == j && spec_code_rank(
                    v[t],
                    w,
                ) == spec_reg(before, j, w as nat)),
    ensures
        forall|t: int|
            0 <= t < i + 1 ==> spec_code_rank(#[trigger] v[t], w) <= spec_reg(
                after,
                spec_code_index(v[t], p, w) as int,
                w as nat,
            ),
        forall|j: int|
            0 <= j < pow2(p as nat) ==> (#[trigger] spec_reg(after, j, w as nat) == 0 || exists|
                t: int,
            |
                0 <= t < i + 1 && spec_code_index(#[trigger] v[t], p, w) == j && spec_code_rank(
                    v[t],
                    w,
                ) == spec_reg(after, j, w as nat)),
{
    let ci = spec_code_index(v[i], p, w) as int;
    let cr = spec_code_rank(v[i], w);
    assert forall|t: int| 0 <= t < i + 1 implies spec_code_rank(#[trigger] v[t], w) <= spec_reg(
        after,
        spec_code_index(v[t], p, w) as int,
        w as nat,
    ) by {
        let jt = spec_code_index(v[t], p, w) as int;
        crate::encode::lemma_code_index_bound(v[t], p, w);
        if t < i {
            if jt == ci {
                assert(spec_reg(after, jt, w as nat) >= spec_reg(before, jt, w as nat));
            } else {
                assert(spec_reg(after, jt, w as nat) == spec_reg(before, jt, w as nat));
            }
        }
    }
    assert forall|j: int| 0 <= j < pow2(p as nat) implies (#[trigger] spec_reg(after, j, w as nat)
        == 0 || exists|t: int|
        0 <= t < i + 1 && spec_code_index(#[trigger] v[t], p, w) == j && spec_code_rank(v[t], w)
            == spec_reg(after, j, w as nat)) by {
        if j == ci {
            if cr > spec_reg(before, ci, w as nat) {
                assert(0 <= i < i + 1 && spec_code_index(v[i], p, w) == j && spec_code_rank(
                    v[i],
                    w,
                ) == spec_reg(after, j, w as nat));
            } else {
                assert(spec_reg(after, j, w as nat) == spec_reg(before, j, w as nat));
            }
        } else {
            assert(spec_reg(after, j, w as nat) == spec_reg(before, j, w as nat));
        }
    }
}

/// Closing the fold: once every code of `view` has been folded in and the
/// fresh code `c` is added, the registers are exactly the maxima of
/// `view.insert(c)`.
proof fn lemma_fold_close(
    before: Seq<u32>,
    after: Seq<u32>,
    v: Seq<u32>,
    view: Set<u32>,
    c: u32,
    p: usize,
    w: usize,
)
    requires
        valid_params(p, w),
        forall|t: int| 0 <= t < v.len() ==> view.contains(#[trigger] v[t]),
        forall|x: u32| view.contains(x) ==> #[trigger] v.contains(x),
        (spec_code_index(c, p, w) as int) < pow2(p as nat),
        spec_reg(after, spec_code_index(c, p, w) as int, w as nat) == (if spec_code_rank(c, w)
            > spec_reg(before, spec_code_index(c, p, w) as int, w as nat) {
            spec_code_rank(c, w)
        } else {
            spec_reg(before, spec_code_index(c, p, w) as int, w as nat)
        }),
        forall|j: int|
            0 <= j < pow2(p as nat) && j != spec_code_index(c, p, w) as int ==> #[trigger]
                spec_reg(after, j, w as nat) == spec_reg(before, j, w as nat),
        forall|t: int|
            0 <= t < v.len() ==> spec_code_rank(#[trigger] v[t], w) <= spec_reg(
                before,
                spec_code_index(v[t], p, w) as int,
                w as nat,
            ),
        forall|j: int|
            0 <= j < pow2(p as nat) ==> (#[trigger] spec_reg(before, j, w as nat) == 0 || exists|
                t: int,
            |
                0 <= t < v.len() && spec_code_index(#[trigger] v[t], p, w) == j && spec_code_rank(
                    v[t],
                    w,
                ) == spec_reg(before, j, w as nat)),
    ensures
        promoted_from_codes(after, view.insert(c), p, w),
{
    let ci = spec_code_index(c, p, w) as int;
    let cr = spec_code_rank(c, w);
    assert forall|x: u32| #[trigger] view.insert(c).contains(x) implies spec_code_rank(x, w)
        <= spec_reg(after, spec_code_index(x, p, w) as int, w as nat) by {
        if x == c {
        } else {
            assert(view.contains(x));
            assert(v.contains(x));
            let t = choose|t: int| 0 <= t < v.len() && v[t] == x;
            let jt = spec_code_index(x, p, w) as int;
            crate::encode::lemma_code_index_bound(x, p, w);
            assert(spec_code_rank(v[t], w) <= spec_reg(before, jt, w as nat));
            if jt == ci {
                assert(spec_reg(after, jt, w as nat) >= spec_reg(before, jt, w as nat));
            } else {
                assert(spec_reg(after, jt, w as nat) == spec_reg(before, jt, w as nat));
            }
        }
    }
    assert forall|j: int| 0 <= j < pow2(p as nat) implies (#[trigger] spec_reg(after, j, w as nat)
        == 0 || exists|x: u32|
        #[trigger] view.insert(c).contains(x) && spec_code_index(x, p, w) == j && spec_code_rank(
            x,
            w,
        ) == spec_reg(after, j, w as nat)) by {
        if j == ci && cr > spec_reg(before, ci, w as nat) {
            assert(view.insert(c).contains(c) && spec_code_index(c, p, w) == j && spec_code_rank(
                c,
                w,
            ) == spec_reg(after, j, w as nat));
        } else {
            assert(spec_reg(after, j, w as nat) == spec_reg(before, j, w as nat));
            if spec_reg(before, j, w as nat) != 0 {
                let t = choose|t: int|
                    0 <= t < v.len() && spec_code_index(#[trigger] v[t], p, w) == j
                        && spec_code_rank(v[t], w) == spec_reg(before, j, w as nat);
                assert(view.insert(c).contains(v[t]) && spec_code_index(v[t], p, w) == j
                    && spec_code_rank(v[t], w) == spec_reg(after, j, w as nat));
            }
        }
    }
}

} // verus!
