//! A Gaussian naive-Bayes trial pipeline over delimited numeric rows.
//!
//! The library owns the discrete core of the pipeline: parsing a delimited
//! text row into exact decimal values, deterministically partitioning rows
//! into training and test sets from a seeded generator, assembling the
//! per-trial training and test data, and scoring a trial's predictions.
//! Floating-point work (the Gaussian density and the running mean/variance
//! of feature values) is left to the caller, which hands back one predicted
//! class per test row.

use vstd::prelude::*;

pub mod parse;
pub mod split;
pub mod trial;

verus! {

/// Number of comma-separated values expected in each data row
/// (the features plus one trailing binary label).
pub const TOTAL_FIELD_COUNT: usize = 9;

/// A row is a test row when its draw falls in the test band:
/// `TEST_NUMERATOR / TEST_DENOMINATOR` is the test fraction.
pub const TEST_NUMERATOR: u64 = 3;

/// Denominator of the test fraction.
pub const TEST_DENOMINATOR: u64 = 10;

/// Default number of independent trials to aggregate.
pub const DEFAULT_TRIAL_COUNT: u32 = 20;

} // verus!
