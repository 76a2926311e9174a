//! Behavioural tests of the estimator across its four representations.
use cardinality_estimator::CardinalityEstimator;
use cardinality_estimator::Representation;

#[test]
fn test_insert() {
    // Create a new CardinalityEstimator.
    let mut e = CardinalityEstimator::<12, 6>::new();

    // Ensure initial estimate is 0.
    assert_eq!(e.estimate(), 0);

    // Insert a test item and validate estimate.
    e.insert("test item 1");
    assert_eq!(e.estimate(), 1);

    // Re-insert the same item, estimate should remain the same.
    e.insert("test item 1");
    assert_eq!(e.estimate(), 1);

    // Insert a new distinct item, estimate should increase.
    e.insert("test item 2");
    assert_eq!(e.estimate(), 2);
}

fn filled(n: usize) -> CardinalityEstimator<12, 6> {
    let mut e = CardinalityEstimator::<12, 6>::new();
    for i in 0..n {
        e.insert(&i);
    }
    e
}

#[test]
fn small_range_is_exact_and_compact() {
    let e = filled(2);
    assert_eq!(e.representation(), Representation::Small);
    assert_eq!(e.estimate(), 2);
    assert_eq!(e.size_of(), 8);
}

#[test]
fn slice_range_is_exact_and_compact() {
    let e = filled(3);
    assert_eq!(e.representation(), Representation::Slice);
    assert_eq!(e.estimate(), 3);
    assert_eq!(e.size_of(), 24);

    let e = filled(8);
    assert_eq!(e.representation(), Representation::Slice);
    assert_eq!(e.estimate(), 8);
    assert_eq!(e.size_of(), 40);

    let e = filled(16);
    assert_eq!(e.representation(), Representation::Slice);
    assert_eq!(e.estimate(), 16);
    assert_eq!(e.size_of(), 72);
}

#[test]
fn set_range_is_exact() {
    let e = filled(17);
    assert_eq!(e.representation(), Representation::HashSet);
    assert_eq!(e.estimate(), 17);
    assert_eq!(e.size_of(), 184);

    let e = filled(448);
    assert_eq!(e.representation(), Representation::HashSet);
    assert_eq!(e.estimate(), 448);
    assert_eq!(e.size_of(), 2584);
}

#[test]
fn dense_range_estimates_within_three_percent() {
    let e = filled(10_000);
    assert_eq!(e.representation(), Representation::HyperLogLog);
    let est = e.estimate();
    assert!(est >= 9_700 && est <= 10_300, "estimate {} out of range", est);
}

#[test]
fn merge_of_disjoint_halves() {
    let mut lhs = CardinalityEstimator::<12, 6>::new();
    let mut buf = [0, 0, 0, 0, 0, 0, 0, 0, 1];
    for i in 0..512usize {
        buf[..8].copy_from_slice(&i.to_le_bytes());
        lhs.insert(&buf);
    }

    let mut rhs = CardinalityEstimator::<12, 6>::new();
    let mut buf = [0, 0, 0, 0, 0, 0, 0, 0, 2];
    for i in 0..512usize {
        buf[..8].copy_from_slice(&i.to_le_bytes());
        rhs.insert(&buf);
    }

    lhs.merge(&rhs);
    let est = lhs.estimate();
    assert!(est >= 1_002 && est <= 1_022, "estimate {} out of range", est);
}

#[test]
fn merge_small_duplicates() {
    let mut a = CardinalityEstimator::<12, 6>::new();
    a.insert("x");
    let mut b = CardinalityEstimator::<12, 6>::new();
    b.insert("x");
    a.merge(&b);
    assert_eq!(a.estimate(), 1);
    assert_eq!(a.representation(), Representation::Small);
}

#[test]
fn estimate_monotone_while_exact() {
    let mut e = CardinalityEstimator::<12, 6>::new();
    let mut last = 0usize;
    for i in 0..448usize {
        e.insert(&i);
        let est = e.estimate();
        assert!(est >= last, "estimate dropped from {} to {} at {}", last, est, i);
        last = est;
    }
}

#[test]
fn estimate_monotone_inside_dense_regime() {
    // Past the densification point the estimate stays non-decreasing as
    // long as it remains in the linear-counting regime, which for this
    // precision reaches beyond ten thousand items.
    let mut e = filled(460);
    let mut last = 0usize;
    for i in 460..10_000usize {
        e.insert(&i);
        let est = e.estimate();
        assert!(est >= last, "estimate dropped from {} to {} at {}", last, est, i);
        last = est;
    }
}

#[test]
fn double_insert_never_changes_estimate() {
    for n in [0usize, 1, 2, 5, 15, 16, 40, 448, 600] {
        let mut e = filled(n);
        let before = e.estimate();
        let rep_before = e.representation();
        e.insert(&0usize);
        e.insert(&0usize);
        if n > 0 {
            assert_eq!(e.estimate(), before, "estimate changed after duplicate at n={}", n);
            assert_eq!(e.representation(), rep_before);
        }
    }
}

#[test]
fn representation_never_regresses() {
    fn order(r: &Representation) -> u32 {
        match r {
            Representation::Small => 0,
            Representation::Slice => 1,
            Representation::HashSet => 2,
            Representation::HyperLogLog => 3,
        }
    }
    let mut e = CardinalityEstimator::<12, 6>::new();
    let mut seen = 0u32;
    for i in 0..600usize {
        e.insert(&i);
        let o = order(&e.representation());
        assert!(o >= seen, "representation regressed at {}", i);
        seen = o;
    }
    assert_eq!(seen, 3);
}

#[test]
fn exact_while_not_dense_for_each_precision() {
    let mut e10 = CardinalityEstimator::<10, 5>::new();
    for i in 0..300usize {
        e10.insert(&i);
        if e10.representation() != Representation::HyperLogLog {
            assert_eq!(e10.estimate(), i + 1);
        }
    }
    let mut e12 = CardinalityEstimator::<12, 6>::new();
    for i in 0..600usize {
        e12.insert(&i);
        if e12.representation() != Representation::HyperLogLog {
            assert_eq!(e12.estimate(), i + 1);
        }
    }
    // Codes carry 31 bits, so occasional code collisions appear in long
    // streams (the first for this key sequence is near two thousand);
    // stay below that to observe exact counting.
    let mut e18 = CardinalityEstimator::<18, 6>::new();
    for i in 0..1_500usize {
        e18.insert(&i);
        assert_eq!(e18.representation() == Representation::HyperLogLog, false);
        assert_eq!(e18.estimate(), i + 1);
    }
}

#[test]
fn merge_commutes_on_estimates() {
    for (n, m) in [(1usize, 1usize), (4, 13), (17, 28), (448, 1), (512, 512), (4, 10_000)] {
        let mut a = CardinalityEstimator::<12, 6>::new();
        let mut buf = [0, 0, 0, 0, 0, 0, 0, 0, 1];
        for i in 0..n {
            buf[..8].copy_from_slice(&i.to_le_bytes());
            a.insert(&buf);
        }
        let mut b = CardinalityEstimator::<12, 6>::new();
        let mut buf = [0, 0, 0, 0, 0, 0, 0, 0, 2];
        for i in 0..m {
            buf[..8].copy_from_slice(&i.to_le_bytes());
            b.insert(&buf);
        }
        let mut ab = a.clone();
        ab.merge(&b);
        let mut ba = b.clone();
        ba.merge(&a);
        assert_eq!(ab.estimate(), ba.estimate(), "merge order changed estimate at {n},{m}");
    }
}

#[test]
fn merge_with_empty_is_identity() {
    for n in [0usize, 1, 2, 7, 17, 448, 1_000] {
        let mut e = filled(n);
        let before = e.estimate();
        let empty = CardinalityEstimator::<12, 6>::new();
        e.merge(&empty);
        assert_eq!(e.estimate(), before, "right identity failed at n={}", n);

        let mut fresh = CardinalityEstimator::<12, 6>::new();
        fresh.merge(&filled(n));
        assert_eq!(fresh.estimate(), before, "left identity failed at n={}", n);
    }
}

#[test]
fn merge_with_itself_changes_nothing() {
    for n in [2usize, 10, 100, 1_000] {
        let mut e = filled(n);
        let before = e.estimate();
        let copy = e.clone();
        e.merge(&copy);
        assert_eq!(e.estimate(), before, "self-merge changed estimate at n={}", n);
    }
}

#[test]
fn clone_is_equal_and_agrees() {
    for n in [0usize, 1, 2, 9, 17, 448, 1_000] {
        let e = filled(n);
        let c = e.clone();
        assert!(c == e, "clone not equal at n={}", n);
        assert_eq!(c.estimate(), e.estimate());
        assert_eq!(c.representation(), e.representation());
    }
}

#[test]
fn from_hash_and_default() {
    let e = CardinalityEstimator::<12, 6>::from_hash(42);
    assert_eq!(e.representation(), Representation::Small);
    assert_eq!(e.estimate(), 1);

    let mut d = CardinalityEstimator::<12, 6>::default();
    assert_eq!(d.estimate(), 0);
    d.insert_hash(42);
    assert!(d == e, "one inserted hash must equal from_hash");
}

#[test]
fn saturated_rank_hash_counts_once() {
    let mut e = CardinalityEstimator::<12, 6>::new();
    e.insert_hash(u64::MAX);
    e.insert_hash(u64::MAX);
    assert_eq!(e.estimate(), 1);
    e.insert_hash(0);
    assert_eq!(e.estimate(), 2);
}
