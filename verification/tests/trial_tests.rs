use naive_bayes::trial::TrialError;
use naive_bayes::trial::RowData;
use naive_bayes::trial::build_trial;
use naive_bayes::trial::score_trial;
use naive_bayes::trial::trial_seed;
use naive_bayes::parse::Decimal;

fn rows(lines: &[&str]) -> Vec<Vec<u8>> {
    lines.iter().map(|l| l.as_bytes().to_vec()).collect()
}

#[test]
fn trial_partitions_every_row() {
    let data = rows(&[
        "1,2,0",
        "3,4,1",
        "5,6,0",
        "7,8,1",
        "not,a,row",
        "9,10",
        "11,12,1",
        "13,14,0",
    ]);
    let plan = build_trial(&data, 7, 3, 10, 3);
    assert_eq!(
        plan.train.len() + plan.skipped_train + plan.test.len() + plan.skipped_test,
        data.len()
    );
    // The two malformed rows land in one skip bucket or the other.
    assert_eq!(plan.skipped_train + plan.skipped_test, 2);
}

#[test]
fn trial_is_reproducible() {
    let data = rows(&["1,2,0", "3,4,1", "5,6,0", "7,8,1", "9,10,0", "11,12,1"]);
    let a = build_trial(&data, trial_seed(3), 3, 10, 3);
    let b = build_trial(&data, trial_seed(3), 3, 10, 3);
    assert_eq!(a, b);
}

#[test]
fn trial_routes_features_and_labels() {
    // With the full draw space as the test band every row is a test row.
    let data = rows(&["1.5,2,0", "3,4,7"]);
    let plan = build_trial(&data, 1, 1, 1, 3);
    assert_eq!(plan.train.len(), 0);
    assert_eq!(plan.test.len(), 2);
    assert_eq!(
        plan.test[0].features,
        vec![
            Decimal { neg: false, mantissa: 15, scale: 1 },
            Decimal { neg: false, mantissa: 2, scale: 0 },
        ]
    );
    assert!(!plan.test[0].positive);
    assert!(plan.test[1].positive);
    // And with an empty test band every row is a training row.
    let plan = build_trial(&data, 1, 0, 10, 3);
    assert_eq!(plan.train.len(), 2);
    assert_eq!(plan.test.len(), 0);
}

#[test]
fn scoring_counts_agreements() {
    let test_rows = vec![
        RowData { features: Vec::new(), positive: true },
        RowData { features: Vec::new(), positive: false },
        RowData { features: Vec::new(), positive: true },
        RowData { features: Vec::new(), positive: false },
    ];
    let predicted = vec![true, true, true, false];
    assert_eq!(score_trial(&test_rows, &predicted), Ok((3, 4)));
    let all_wrong = vec![false, true, false, true];
    assert_eq!(score_trial(&test_rows, &all_wrong), Ok((0, 4)));
}

#[test]
fn scoring_an_empty_test_set_fails() {
    let none: Vec<RowData> = Vec::new();
    let predicted: Vec<bool> = Vec::new();
    assert_eq!(score_trial(&none, &predicted), Err(TrialError::EmptyTestSet));
}

#[test]
fn trial_seeds_are_distinct_and_fixed() {
    assert_eq!(trial_seed(0), 1);
    assert_eq!(trial_seed(1), 4294967297);
    let mut seen: Vec<u64> = Vec::new();
    for i in 0..20 {
        let s = trial_seed(i);
        assert!(!seen.contains(&s));
        seen.push(s);
    }
}
