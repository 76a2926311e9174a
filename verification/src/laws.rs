//! Laws of the estimator, stated and proved against the public contracts.
//!
//! Each lemma relates the abstract states that the contracts of
//! `insert_hash`, `merge`, `clone` and `estimate` speak of.
use vstd::prelude::*;

verus! {

use vstd::arithmetic::power2::pow2;

use crate::encode::lemma_code_index_bound;
use crate::encode::lemma_code_round_trip;
use crate::encode::spec_code;
use crate::encode::spec_code_index;
use crate::encode::spec_code_rank;
use crate::encode::spec_index;
use crate::encode::spec_rank;
use crate::estimator::merged_into_dense;
use crate::estimator::promoted_from_codes;
use crate::estimator::rep_order;
use crate::estimator::CardinalityEstimator;
use crate::estimator::Representation;
use crate::estimator::Store;
use crate::hll::lemma_summaries_frame;
use crate::hll::spec_reg;
use crate::setrep::code_set_view;

/// The code set of a well-formed estimator is finite.
pub proof fn lemma_codes_finite<const P: usize, const W: usize>(e: CardinalityEstimator<P, W>)
    requires
        e.wf(),
    ensures
        e.codes().finite(),
{
    broadcast use vstd::set::group_set_axioms;
    broadcast use vstd::seq_lib::seq_to_set_is_finite;

    match e.store {
        Store::Slice { len, buf } => {
            assert(buf@.subrange(0, len as int).to_set().finite());
        },
        _ => {},
    }
}

/// Monotonicity: while the representation stays exact, an insertion never
/// lowers the estimate.
pub proof fn lemma_estimate_monotone_exact<const P: usize, const W: usize>(
    pre: CardinalityEstimator<P, W>,
    post: CardinalityEstimator<P, W>,
    h: u64,
)
    requires
        pre.wf(),
        CardinalityEstimator::<P, W>::insert_hash_post(pre, post, h),
        pre.is_exact(),
        post.is_exact(),
    ensures
        post.spec_estimate() >= pre.spec_estimate(),
{
    broadcast use vstd::set::group_set_axioms;

    lemma_codes_finite(pre);
    let c = spec_code(h, P, W);
    assert(post.codes() == pre.codes().insert(c));
}

/// Monotonicity in the dense representation: an insertion never lowers
/// the estimate, as long as it does not move the estimate out of the
/// linear-counting regime (at that crossover the two formulas need not
/// agree).
pub proof fn lemma_estimate_monotone_dense<const P: usize, const W: usize>(
    pre: CardinalityEstimator<P, W>,
    post: CardinalityEstimator<P, W>,
    h: u64,
)
    requires
        pre.wf(),
        !pre.is_exact(),
        CardinalityEstimator::<P, W>::insert_hash_post(pre, post, h),
        crate::estmath::spec_lc_regime(P as nat, pre.zeros_view() as nat)
            ==> crate::estmath::spec_lc_regime(P as nat, post.zeros_view() as nat),
    ensures
        post.spec_estimate() >= pre.spec_estimate(),
{
    crate::encode::lemma_index_bound(h, P);
    let m = pow2(P as nat);
    let i = spec_index(h, P) as int;
    assert forall|j: int| 0 <= j < m implies #[trigger] spec_reg(post.regs_view(), j, W as nat)
        >= spec_reg(pre.regs_view(), j, W as nat) by {
        if j != i {
            assert(spec_reg(post.regs_view(), j, W as nat) == spec_reg(
                pre.regs_view(),
                j,
                W as nat,
            ));
        }
    }
    crate::hll::lemma_summaries_monotone(pre.regs_view(), post.regs_view(), W as nat, m);
    crate::hll::lemma_summaries_bounds(pre.regs_view(), W as nat, m);
    crate::hll::lemma_summaries_bounds(post.regs_view(), W as nat, m);
    let z1 = pre.zeros_view() as nat;
    let z2 = post.zeros_view() as nat;
    let s1 = pre.sum_view() as nat;
    let s2 = post.sum_view() as nat;
    assert(z2 <= z1 && s2 <= s1);
    if crate::estmath::spec_lc_regime(P as nat, z1) {
        assert(crate::estmath::spec_lc_regime(P as nat, z2));
        crate::estmath::lemma_lc_antitone(P as nat, z2, z1);
    } else {
        if crate::estmath::spec_lc_regime(P as nat, z2) {
            assert(z1 > 0);
            crate::estmath::lemma_lc_antitone(P as nat, z2, z1);
            assert(false);
        }
        crate::estmath::lemma_raw_antitone(P as nat, s2, s1);
    }
}

/// Idempotence: inserting the same hash twice in a row leaves the state
/// of the first insertion unchanged.
pub proof fn lemma_insert_idempotent<const P: usize, const W: usize>(
    s0: CardinalityEstimator<P, W>,
    s1: CardinalityEstimator<P, W>,
    s2: CardinalityEstimator<P, W>,
    h: u64,
)
    requires
        s0.wf(),
        CardinalityEstimator::<P, W>::insert_hash_post(s0, s1, h),
        CardinalityEstimator::<P, W>::insert_hash_post(s1, s2, h),
    ensures
        s2 == s1,
{
    broadcast use vstd::set::group_set_axioms;

    let c = spec_code(h, P, W);
    let i = spec_index(h, P) as int;
    let rk = spec_rank(h, P, W);
    lemma_code_round_trip(h, P, W);
    if s0.is_exact() {
        if s1.is_exact() {
            assert(s1.codes().contains(c));
        } else {
            assert(promoted_from_codes(s1.regs_view(), s0.codes().insert(c), P, W));
            assert(s0.codes().insert(c).contains(c));
            assert(spec_code_rank(c, W) <= spec_reg(
                s1.regs_view(),
                spec_code_index(c, P, W) as int,
                W as nat,
            ));
            assert(rk <= spec_reg(s1.regs_view(), i, W as nat));
        }
    }
}

/// Representation monotonicity: neither an insertion nor a merge ever
/// moves the representation backwards.
pub proof fn lemma_representation_monotone<const P: usize, const W: usize>(
    pre: CardinalityEstimator<P, W>,
    post: CardinalityEstimator<P, W>,
    rhs: CardinalityEstimator<P, W>,
    h: u64,
)
    requires
        CardinalityEstimator::<P, W>::insert_hash_post(pre, post, h)
            || CardinalityEstimator::<P, W>::merge_post(pre, rhs, post),
    ensures
        rep_order(pre.spec_rep()) <= rep_order(post.spec_rep()),
{
}

/// Registers characterised as maxima over a base and a code set are
/// unique.
proof fn lemma_merged_unique(
    base: Seq<u32>,
    cs: Set<u32>,
    out1: Seq<u32>,
    out2: Seq<u32>,
    p: usize,
    w: usize,
)
    requires
        crate::encode::valid_params(p, w),
        merged_into_dense(base, cs, out1, p, w),
        merged_into_dense(base, cs, out2, p, w),
    ensures
        forall|i: int|
            0 <= i < pow2(p as nat) ==> #[trigger] spec_reg(out1, i, w as nat) == spec_reg(
                out2,
                i,
                w as nat,
            ),
{
    assert forall|i: int| 0 <= i < pow2(p as nat) implies #[trigger] spec_reg(out1, i, w as nat)
        == spec_reg(out2, i, w as nat) by {
        let a = spec_reg(out1, i, w as nat);
        let b = spec_reg(out2, i, w as nat);
        if a != spec_reg(base, i, w as nat) {
            let x = choose|x: u32|
                #[trigger] cs.contains(x) && spec_code_index(x, p, w) == i && spec_code_rank(
                    x,
                    w,
                ) == a;
            assert(a <= b);
        }
        if b != spec_reg(base, i, w as nat) {
            let x = choose|x: u32|
                #[trigger] cs.contains(x) && spec_code_index(x, p, w) == i && spec_code_rank(
                    x,
                    w,
                ) == b;
            assert(b <= a);
        }
    }
}

/// Registers characterised as maxima of a code set alone are unique.
proof fn lemma_promoted_unique(
    cs: Set<u32>,
    out1: Seq<u32>,
    out2: Seq<u32>,
    p: usize,
    w: usize,
)
    requires
        crate::encode::valid_params(p, w),
        promoted_from_codes(out1, cs, p, w),
        promoted_from_codes(out2, cs, p, w),
    ensures
        forall|i: int|
            0 <= i < pow2(p as nat) ==> #[trigger] spec_reg(out1, i, w as nat) == spec_reg(
                out2,
                i,
                w as nat,
            ),
{
    assert forall|i: int| 0 <= i < pow2(p as nat) implies #[trigger] spec_reg(out1, i, w as nat)
        == spec_reg(out2, i, w as nat) by {
        let a = spec_reg(out1, i, w as nat);
        let b = spec_reg(out2, i, w as nat);
        if a != 0 {
            let x = choose|x: u32|
                #[trigger] cs.contains(x) && spec_code_index(x, p, w) == i && spec_code_rank(
                    x,
                    w,
                ) == a;
            assert(a <= b);
        }
        if b != 0 {
            let x = choose|x: u32|
                #[trigger] cs.contains(x) && spec_code_index(x, p, w) == i && spec_code_rank(
                    x,
                    w,
                ) == b;
            assert(b <= a);
        }
    }
}

/// Pointwise equal registers give the same dense estimate.
proof fn lemma_same_regs_same_estimate<const P: usize, const W: usize>(
    a: CardinalityEstimator<P, W>,
    b: CardinalityEstimator<P, W>,
)
    requires
        a.wf(),
        b.wf(),
        !a.is_exact(),
        !b.is_exact(),
        forall|i: int|
            0 <= i < pow2(P as nat) ==> #[trigger] spec_reg(a.regs_view(), i, W as nat)
                == spec_reg(b.regs_view(), i, W as nat),
    ensures
        a.spec_estimate() == b.spec_estimate(),
{
    lemma_summaries_frame(a.regs_view(), b.regs_view(), W as nat, pow2(P as nat));
    assert(a.zeros_view() == b.zeros_view());
    assert(a.sum_view() == b.sum_view());
}

/// Merge commutativity: merging in either order gives the same estimate,
/// as long as both orders settle on the same kind of representation
/// (exact or dense) -- which side of the densification threshold a merge
/// lands on depends on the hash table's capacity.
pub proof fn lemma_merge_estimate_commutes<const P: usize, const W: usize>(
    a: CardinalityEstimator<P, W>,
    b: CardinalityEstimator<P, W>,
    ab: CardinalityEstimator<P, W>,
    ba: CardinalityEstimator<P, W>,
)
    requires
        a.wf(),
        b.wf(),
        CardinalityEstimator::<P, W>::merge_post(a, b, ab),
        CardinalityEstimator::<P, W>::merge_post(b, a, ba),
        ab.is_exact() == ba.is_exact(),
    ensures
        ab.spec_estimate() == ba.spec_estimate(),
{
    broadcast use vstd::set::group_set_axioms;

    if a.is_exact() && b.is_exact() {
        assert(a.codes().union(b.codes()) =~= b.codes().union(a.codes()));
        if ab.is_exact() {
            assert(ab.codes() == ba.codes());
        } else {
            lemma_promoted_unique(
                a.codes().union(b.codes()),
                ab.regs_view(),
                ba.regs_view(),
                P,
                W,
            );
            lemma_same_regs_same_estimate(ab, ba);
        }
    } else if a.is_exact() && !b.is_exact() {
        lemma_merged_unique(b.regs_view(), a.codes(), ab.regs_view(), ba.regs_view(), P, W);
        lemma_same_regs_same_estimate(ab, ba);
    } else if !a.is_exact() && b.is_exact() {
        lemma_merged_unique(a.regs_view(), b.codes(), ab.regs_view(), ba.regs_view(), P, W);
        lemma_same_regs_same_estimate(ab, ba);
    } else {
        assert forall|i: int| 0 <= i < pow2(P as nat) implies #[trigger] spec_reg(
            ab.regs_view(),
            i,
            W as nat,
        ) == spec_reg(ba.regs_view(), i, W as nat) by {}
        lemma_same_regs_same_estimate(ab, ba);
    }
}

/// Merge identity: merging an empty estimator changes nothing.
pub proof fn lemma_merge_right_identity<const P: usize, const W: usize>(
    pre: CardinalityEstimator<P, W>,
    rhs: CardinalityEstimator<P, W>,
    post: CardinalityEstimator<P, W>,
)
    requires
        CardinalityEstimator::<P, W>::merge_post(pre, rhs, post),
        rhs.spec_rep() == Representation::Small,
        rhs.codes() == Set::<u32>::empty(),
    ensures
        post == pre,
{
}

/// Merge identity, the other way: an empty estimator that absorbs another
/// reports the other's estimate, as long as an exact right side stays
/// exact.
pub proof fn lemma_merge_left_identity<const P: usize, const W: usize>(
    pre: CardinalityEstimator<P, W>,
    rhs: CardinalityEstimator<P, W>,
    post: CardinalityEstimator<P, W>,
)
    requires
        pre.wf(),
        rhs.wf(),
        pre.spec_rep() == Representation::Small,
        pre.codes() == Set::<u32>::empty(),
        CardinalityEstimator::<P, W>::merge_post(pre, rhs, post),
        post.is_exact() == rhs.is_exact(),
    ensures
        post.spec_estimate() == rhs.spec_estimate(),
{
    broadcast use vstd::set::group_set_axioms;

    if rhs.is_exact() {
        assert(post.codes() =~= rhs.codes());
    } else {
        assert(merged_into_dense(rhs.regs_view(), pre.codes(), post.regs_view(), P, W));
        assert(merged_into_dense(rhs.regs_view(), pre.codes(), rhs.regs_view(), P, W));
        lemma_merged_unique(
            rhs.regs_view(),
            pre.codes(),
            post.regs_view(),
            rhs.regs_view(),
            P,
            W,
        );
        lemma_same_regs_same_estimate(post, rhs);
    }
}

/// Clone equivalence: an estimator congruent to a well-formed one (as a
/// clone is) is itself well-formed, equal under `==`, and reports the
/// same estimate.
pub proof fn lemma_clone_equivalent<const P: usize, const W: usize>(
    orig: CardinalityEstimator<P, W>,
    copy: CardinalityEstimator<P, W>,
)
    requires
        orig.wf(),
        CardinalityEstimator::<P, W>::congruent(copy, orig),
    ensures
        copy.wf(),
        copy.spec_estimate() == orig.spec_estimate(),
        CardinalityEstimator::<P, W>::congruent(orig, copy),
{
    CardinalityEstimator::<P, W>::lemma_congruent_properties(copy, orig);
    CardinalityEstimator::<P, W>::lemma_congruent_properties(orig, copy);
}

} // verus!
