//! End-to-end runs of the trial pipeline, with the floating-point side
//! (running mean/variance, Gaussian density) done here in the test, the
//! way a caller of the library does it.

use naive_bayes::parse::Decimal;
use naive_bayes::trial::TrialPlan;
use naive_bayes::trial::build_trial;
use naive_bayes::trial::score_trial;
use naive_bayes::trial::trial_seed;

struct Welford {
    count: u64,
    mean: f64,
    sum_sq: f64,
}

impl Welford {
    fn new() -> Welford {
        Welford { count: 0, mean: 0.0, sum_sq: 0.0 }
    }

    fn push(&mut self, x: f64) {
        self.count += 1;
        let delta = x - self.mean;
        self.mean += delta / self.count as f64;
        self.sum_sq += delta * (x - self.mean);
    }

    fn mean(&self) -> f64 {
        if self.count == 0 { f64::NAN } else { self.mean }
    }

    fn variance(&self) -> f64 {
        if self.count == 0 { f64::NAN } else { self.sum_sq / self.count as f64 }
    }
}

fn dec_to_f64(d: &Decimal) -> f64 {
    let magnitude = d.mantissa as f64 / 10f64.powi(d.scale as i32);
    if d.neg { -magnitude } else { magnitude }
}

fn density(x: f64, mean: f64, variance: f64) -> f64 {
    let var = if variance < 1e-12 { 1e-12 } else { variance };
    let exponent = (-(x - mean).powi(2) / (2.0 * var)).exp();
    1.0 / ((2.0 * std::f64::consts::PI).sqrt() * var.sqrt()) * exponent
}

fn run_trial(plan: &TrialPlan, feature_count: usize) -> Option<f64> {
    let mut positive: Vec<Welford> = (0..feature_count).map(|_| Welford::new()).collect();
    let mut negative: Vec<Welford> = (0..feature_count).map(|_| Welford::new()).collect();
    for row in &plan.train {
        for (i, d) in row.features.iter().enumerate() {
            if row.positive {
                positive[i].push(dec_to_f64(d));
            } else {
                negative[i].push(dec_to_f64(d));
            }
        }
    }
    let mut predicted: Vec<bool> = Vec::new();
    for row in &plan.test {
        let mut p_pos = 1.0;
        let mut p_neg = 1.0;
        for (i, d) in row.features.iter().enumerate() {
            let x = dec_to_f64(d);
            p_pos *= density(x, positive[i].mean(), positive[i].variance());
            p_neg *= density(x, negative[i].mean(), negative[i].variance());
        }
        predicted.push(!(p_neg > p_pos));
    }
    match score_trial(&plan.test, &predicted) {
        Ok((correct, tested)) => Some(correct as f64 / tested as f64),
        Err(_) => None,
    }
}

fn synthetic_rows() -> Vec<Vec<u8>> {
    // A class-balanced, well-separated dataset: class 0 clusters near
    // (10, 20), class 1 near (90, 120), with some spread.
    let mut lines: Vec<Vec<u8>> = Vec::new();
    for k in 0..40u32 {
        let wobble = (k % 7) as i64 - 3;
        let a = 10 + wobble;
        let b = 20 + (k % 5) as i64;
        lines.push(format!("{},{},0", a, b).into_bytes());
        let c = 90 + wobble * 2;
        let d = 120 + (k % 11) as i64;
        lines.push(format!("{},{},1", c, d).into_bytes());
    }
    lines
}

fn run_pipeline(rows: &Vec<Vec<u8>>, trials: u32) -> (f64, f64) {
    let mut summary = Welford::new();
    for t in 0..trials {
        let plan = build_trial(rows, trial_seed(t), 3, 10, 3);
        let accuracy = run_trial(&plan, 2).expect("a trial had no test rows");
        assert!(0.0 <= accuracy && accuracy <= 1.0);
        summary.push(accuracy);
    }
    (summary.mean(), summary.variance().sqrt())
}

#[test]
fn pipeline_is_reproducible() {
    let rows = synthetic_rows();
    let first = run_pipeline(&rows, 10);
    let second = run_pipeline(&rows, 10);
    assert_eq!(first.0.to_bits(), second.0.to_bits());
    assert_eq!(first.1.to_bits(), second.1.to_bits());
}

#[test]
fn pipeline_beats_guessing_on_separated_classes() {
    let rows = synthetic_rows();
    let (mean_accuracy, std_dev) = run_pipeline(&rows, 10);
    assert!(mean_accuracy > 0.5);
    assert!(std_dev >= 0.0);
}

#[test]
fn test_gaussian_probability_density() {
    // The density the pipeline's caller evaluates, pinned to a known value.
    let sd: f64 = 6.2;
    assert_eq!(0.06248965759370005, density(71.5, 73.0, sd.powi(2)));
}

#[test]
fn welford_matches_the_statistical_identity() {
    // The running accumulator the pipeline's caller keeps must agree with
    // the closed-form population statistics.
    let mut acc = Welford::new();
    for x in [2.0, 4.0, 4.0, 4.0, 5.0, 5.0, 7.0, 9.0] {
        acc.push(x);
    }
    assert_eq!(acc.mean(), 5.0);
    assert_eq!(acc.variance(), 4.0);
    let empty = Welford::new();
    assert!(empty.mean().is_nan());
    assert!(empty.variance().is_nan());
}
