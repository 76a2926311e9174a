//! Exact values of the dense estimate formulas, on hand-crafted hashes,
//! and the statistical error bound over full insertion streams.
use cardinality_estimator::CardinalityEstimator;
use cardinality_estimator::Representation;

/// With precision 4 and width 4, twenty-nine crafted hashes cover the
/// register indices 0..=13 twice and leave registers 14 and 15 at zero.
/// Linear counting gives round(16 * ln(16 / 2)) == 33.
#[test]
fn linear_counting_exact_value() {
    let mut e = CardinalityEstimator::<4, 4>::new();
    for h in 0u64..14 {
        e.insert_hash(h);
    }
    for h in 16u64..30 {
        e.insert_hash(h);
    }
    e.insert_hash(32);
    assert_eq!(e.representation(), Representation::HyperLogLog);
    assert_eq!(e.estimate(), 33);
}

/// With precision 4 and width 4, the thirty hashes 0..=29 fill every
/// register: fourteen registers hold rank 2 and two hold rank 1, so the
/// harmonic sum is 18/4 and the bias-corrected estimate is
/// round(0.673 * 256 / (18/4)) computed in fixed point: 38.
#[test]
fn harmonic_mean_exact_value() {
    let mut e = CardinalityEstimator::<4, 4>::new();
    for h in 0u64..30 {
        e.insert_hash(h);
    }
    assert_eq!(e.representation(), Representation::HyperLogLog);
    assert_eq!(e.estimate(), 38);
}

fn average_relative_error<const P: usize, const W: usize>(n: usize) -> f64 {
    let mut e = CardinalityEstimator::<P, W>::new();
    let mut total: f64 = 0.0;
    for i in 0..n {
        e.insert(&i);
        let estimate = e.estimate() as f64;
        let actual = (i + 1) as f64;
        total += (estimate - actual).abs() / actual;
    }
    total / (n as f64)
}

/// The average relative error over the stream stays within three times
/// the ideal HyperLogLog error `1.04 / sqrt(2^P)`.
#[test]
fn bounded_error_p10() {
    let err = average_relative_error::<10, 5>(100_000);
    assert!(err <= 3.0 * 1.04 / (1024.0f64).sqrt(), "avg error {} too large", err);
}

#[test]
fn bounded_error_p12() {
    let err = average_relative_error::<12, 6>(100_000);
    assert!(err <= 3.0 * 1.04 / (4096.0f64).sqrt(), "avg error {} too large", err);
}

#[test]
fn bounded_error_p18() {
    let err = average_relative_error::<18, 6>(100_000);
    assert!(err <= 3.0 * 1.04 / (262144.0f64).sqrt(), "avg error {} too large", err);
}
