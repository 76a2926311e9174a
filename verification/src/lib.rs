//! Adaptive cardinality estimator.
//!
//! A [`CardinalityEstimator`] counts the number of distinct values seen in
//! an insertion stream.  Small sets are counted exactly in compact
//! storage; once the set grows past a threshold the estimator densifies
//! into a bit-packed HyperLogLog register array and reports an approximate
//! count.
pub mod encode;
pub mod estimator;
pub mod estmath;
pub mod hll;
pub mod laws;
pub mod scan;
pub mod setrep;

pub use estimator::CardinalityEstimator;
pub use estimator::Representation;
