//! Assembling and scoring one train/test trial.
//!
//! A trial walks the rows twice, as two passes over the same sequence:
//! a training pass that keeps every well-formed non-test row, and a test
//! pass, driven by a source reset to the same seed, that keeps every
//! well-formed test row. A row that fails to parse or has the wrong field
//! count is skipped — in both passes, the one consistent policy — and only
//! counted as a diagnostic. Scoring compares the caller's predicted class
//! for each test row with the row's actual class.

use vstd::prelude::*;
use crate::parse::Decimal;
use crate::parse::decimal_of;
use crate::parse::parse_patient_data;
use crate::parse::split_commas;
use crate::parse::token_valid;
use crate::parse::views_of;
use crate::split::SplitRng;
use crate::split::split_of;

verus! {

/// One well-formed data row, ready for training or testing: its feature
/// values and its class (`positive` when the trailing label is non-zero).
#[derive(Clone, Debug, PartialEq)]
pub struct RowData {
    pub features: Vec<Decimal>,
    pub positive: bool,
}

/// The mathematical content of a `RowData`.
pub open spec fn row_view(r: RowData) -> (Seq<Decimal>, bool) {
    (r.features@, r.positive)
}

/// The mathematical contents of a sequence of rows.
pub open spec fn rows_view(s: Seq<RowData>) -> Seq<(Seq<Decimal>, bool)> {
    s.map_values(|r: RowData| row_view(r))
}

/// Whether every token of a line parses as a decimal.
pub open spec fn line_parses(line: Seq<u8>) -> bool {
    forall|i: int|
        0 <= i < split_commas(line).len() ==> token_valid(#[trigger] split_commas(line)[i])
}

/// The decimal values of a line's tokens.
pub open spec fn line_values(line: Seq<u8>) -> Seq<Decimal> {
    split_commas(line).map_values(|t: Seq<u8>| decimal_of(t))
}

/// A line is kept only when every token parses and it has exactly the
/// configured number of fields.
pub open spec fn row_ok(line: Seq<u8>, field_count: int) -> bool {
    line_parses(line) && split_commas(line).len() == field_count
}

/// The class of a well-formed line: positive exactly when the trailing
/// label value is non-zero.
pub open spec fn row_positive(line: Seq<u8>, field_count: int) -> bool {
    !line_values(line)[field_count - 1].is_zero()
}

/// The feature values of a well-formed line: all fields but the label.
pub open spec fn row_features(line: Seq<u8>, field_count: int) -> Seq<Decimal> {
    line_values(line).take(field_count - 1)
}

/// The rows one pass keeps: those whose split assignment matches the pass
/// (`test_pass` selects test rows) and that are well-formed, in row order.
pub open spec fn kept_rows(
    lines: Seq<Seq<u8>>,
    seed: u64,
    num: u64,
    den: u64,
    field_count: int,
    test_pass: bool,
) -> Seq<(Seq<Decimal>, bool)>
    decreases lines.len(),
{
    if lines.len() == 0 {
        Seq::empty()
    } else {
        let rest = kept_rows(lines.drop_last(), seed, num, den, field_count, test_pass);
        let i = lines.len() - 1;
        if split_of(seed, i, num, den) == test_pass && row_ok(lines.last(), field_count) {
            rest.push((row_features(lines.last(), field_count), row_positive(lines.last(), field_count)))
        } else {
            rest
        }
    }
}

/// The rows one pass skips: those whose split assignment matches the pass
/// but that fail to parse or have the wrong field count.
pub open spec fn skipped_count(
    lines: Seq<Seq<u8>>,
    seed: u64,
    num: u64,
    den: u64,
    field_count: int,
    test_pass: bool,
) -> nat
    decreases lines.len(),
{
    if lines.len() == 0 {
        0
    } else {
        let rest = skipped_count(lines.drop_last(), seed, num, den, field_count, test_pass);
        let i = lines.len() - 1;
        if split_of(seed, i, num, den) == test_pass && !row_ok(lines.last(), field_count) {
            rest + 1
        } else {
            rest
        }
    }
}

/// Law: the two passes partition the rows. Every row is counted exactly
/// once — kept by the training pass, skipped by it, kept by the test
/// pass, or skipped by it — so no row belongs to both passes or to
/// neither.
pub proof fn lemma_trial_partition(
    lines: Seq<Seq<u8>>,
    seed: u64,
    num: u64,
    den: u64,
    field_count: int,
)
    ensures
        kept_rows(lines, seed, num, den, field_count, false).len() + skipped_count(
            lines,
            seed,
            num,
            den,
            field_count,
            false,
        ) + kept_rows(lines, seed, num, den, field_count, true).len() + skipped_count(
            lines,
            seed,
            num,
            den,
            field_count,
            true,
        ) == lines.len(),
    decreases lines.len(),
{
    if lines.len() > 0 {
        lemma_trial_partition(lines.drop_last(), seed, num, den, field_count);
    }
}

/// The training and test data of one trial, with the per-pass counts of
/// skipped (malformed) rows as a diagnostic.
#[derive(Clone, Debug, PartialEq)]
pub struct TrialPlan {
    pub train: Vec<RowData>,
    pub test: Vec<RowData>,
    pub skipped_train: usize,
    pub skipped_test: usize,
}

/// A failure of one trial.
#[derive(Clone, Copy, Debug, PartialEq, Eq, Structural)]
pub enum TrialError {
    /// The trial has no test rows, so its accuracy is undefined.
    EmptyTestSet,
}

/// One pass over the rows: draw one split decision per row, in row order,
/// from a source seeded with `seed`, and keep every well-formed row whose
/// assignment matches the pass.
pub fn collect_pass(
    lines: &Vec<Vec<u8>>,
    seed: u64,
    num: u64,
    den: u64,
    field_count: usize,
    test_pass: bool,
) -> (r: (Vec<RowData>, usize))
    requires
        den > 0,
        field_count >= 1,
    ensures
        rows_view(r.0@) == kept_rows(views_of(lines@), seed, num, den, field_count as int, test_pass),
        r.1 == skipped_count(views_of(lines@), seed, num, den, field_count as int, test_pass),
{
    let ghost lv = views_of(lines@);
    let mut rng = SplitRng::new(seed);
    let mut kept: Vec<RowData> = Vec::new();
    let mut skipped: usize = 0;
    let n = lines.len();
    let mut i: usize = 0;
    while i < n
        invariant
            0 <= i <= n == lines@.len(),
            den > 0,
            field_count >= 1,
            lv == views_of(lines@),
            rng.seed() == seed,
            rng.drawn() == i,
            skipped <= i,
            rows_view(kept@) =~= kept_rows(lv.take(i as int), seed, num, den, field_count as int, test_pass),
            skipped == skipped_count(lv.take(i as int), seed, num, den, field_count as int, test_pass),
        decreases n - i,
    {
        let ghost p = lv.take(i as int);
        let ghost p2 = lv.take(i + 1);
        proof {
            assert(p2.drop_last() =~= p);
            assert(p2.last() == lines@[i as int]@);
        }
        let is_test = rng.next_is_test(num, den);
        if is_test == test_pass {
            match parse_patient_data(lines[i].as_slice()) {
                Ok(vals) => {
                    if vals.len() == field_count {
                        proof {
                            assert(row_ok(p2.last(), field_count as int));
                        }
                        let mut features: Vec<Decimal> = Vec::new();
                        let mut j: usize = 0;
                        while j < field_count - 1
                            invariant
                                0 <= j <= field_count - 1,
                                vals@.len() == field_count,
                                features@ =~= vals@.take(j as int),
                            decreases field_count - 1 - j,
                        {
                            features.push(vals[j]);
                            j = j + 1;
                        }
                        let positive = vals[field_count - 1].mantissa != 0;
                        let ghost old_kept = kept@;
                        proof {
                            assert(vals@ =~= line_values(p2.last()));
                            assert(features@ =~= row_features(p2.last(), field_count as int));
                            assert(positive == row_positive(p2.last(), field_count as int));
                        }
                        kept.push(RowData { features, positive });
                        proof {
                            assert(rows_view(kept@) =~= rows_view(old_kept).push(
                                (row_features(p2.last(), field_count as int), row_positive(
                                    p2.last(),
                                    field_count as int,
                                )),
                            ));
                        }
                    } else {
                        proof {
                            assert(!row_ok(p2.last(), field_count as int));
                        }
                        skipped = skipped + 1;
                    }
                },
                Err(e) => {
                    proof {
                        assert(!token_valid(split_commas(p2.last())[e.token_index as int]));
                        assert(!row_ok(p2.last(), field_count as int));
                    }
                    skipped = skipped + 1;
                },
            }
        }
        i = i + 1;
    }
    proof {
        assert(lv.take(n as int) =~= lv);
    }
    (kept, skipped)
}

/// Build one trial: a training pass and a test pass over the same rows,
/// each driven by a source freshly seeded with the same seed, so row `i`'s
/// assignment agrees between the passes. The result is a function of the
/// arguments alone, so a repeated run with the same rows and seed yields
/// the identical plan.
pub fn build_trial(
    lines: &Vec<Vec<u8>>,
    seed: u64,
    num: u64,
    den: u64,
    field_count: usize,
) -> (r: TrialPlan)
    requires
        den > 0,
        field_count >= 1,
    ensures
        rows_view(r.train@) == kept_rows(views_of(lines@), seed, num, den, field_count as int, false),
        rows_view(r.test@) == kept_rows(views_of(lines@), seed, num, den, field_count as int, true),
        r.skipped_train == skipped_count(views_of(lines@), seed, num, den, field_count as int, false),
        r.skipped_test == skipped_count(views_of(lines@), seed, num, den, field_count as int, true),
        r.train@.len() + r.skipped_train + r.test@.len() + r.skipped_test == lines@.len(),
{
    let (train, skipped_train) = collect_pass(lines, seed, num, den, field_count, false);
    let (test, skipped_test) = collect_pass(lines, seed, num, den, field_count, true);
    proof {
        lemma_trial_partition(views_of(lines@), seed, num, den, field_count as int);
        assert(rows_view(train@).len() == train@.len());
        assert(rows_view(test@).len() == test@.len());
    }
    TrialPlan { train, test, skipped_train, skipped_test }
}

/// The classes of a sequence of rows.
pub open spec fn labels_of(rows: Seq<RowData>) -> Seq<bool> {
    rows.map_values(|r: RowData| r.positive)
}

/// How many positions of two equal-length sequences agree.
pub open spec fn agree_count(actual: Seq<bool>, predicted: Seq<bool>) -> nat
    recommends
        actual.len() == predicted.len(),
    decreases actual.len(),
{
    if actual.len() == 0 {
        0
    } else {
        agree_count(actual.drop_last(), predicted.drop_last()) + (if actual.last()
            == predicted.last() {
            1nat
        } else {
            0nat
        })
    }
}

/// Law: a trial's accuracy lies between zero and one — the number of
/// correct predictions never exceeds the number of rows tested.
pub proof fn lemma_accuracy_bounds(actual: Seq<bool>, predicted: Seq<bool>)
    requires
        actual.len() == predicted.len(),
    ensures
        agree_count(actual, predicted) <= actual.len(),
    decreases actual.len(),
{
    if actual.len() > 0 {
        lemma_accuracy_bounds(actual.drop_last(), predicted.drop_last());
    }
}

/// Score one trial: compare the caller's predicted class for every test
/// row with the row's actual class. Returns the correct count and the
/// tested count — their quotient is the trial's accuracy — or the
/// empty-test-set failure when no rows were tested, rather than an
/// undefined quotient.
pub fn score_trial(test_rows: &Vec<RowData>, predicted: &Vec<bool>) -> (r: Result<
    (usize, usize),
    TrialError,
>)
    requires
        test_rows@.len() == predicted@.len(),
    ensures
        test_rows@.len() == 0 ==> r == Err::<(usize, usize), TrialError>(TrialError::EmptyTestSet),
        test_rows@.len() > 0 ==> r == Ok::<(usize, usize), TrialError>(
            (agree_count(labels_of(test_rows@), predicted@) as usize, test_rows.len()),
        ),
        r matches Ok(c) ==> c.0 <= c.1 && c.1 > 0,
{
    let n = test_rows.len();
    if n == 0 {
        return Err(TrialError::EmptyTestSet);
    }
    let ghost labels = labels_of(test_rows@);
    let mut correct: usize = 0;
    let mut i: usize = 0;
    while i < n
        invariant
            0 <= i <= n == test_rows@.len(),
            predicted@.len() == n,
            labels == labels_of(test_rows@),
            correct <= i,
            correct == agree_count(labels.take(i as int), predicted@.take(i as int)),
        decreases n - i,
    {
        let ghost la = labels.take(i + 1);
        let ghost pa = predicted@.take(i + 1);
        proof {
            assert(la.drop_last() =~= labels.take(i as int));
            assert(pa.drop_last() =~= predicted@.take(i as int));
            assert(la.last() == test_rows@[i as int].positive);
            assert(pa.last() == predicted@[i as int]);
        }
        if test_rows[i].positive == predicted[i] {
            correct = correct + 1;
        }
        i = i + 1;
    }
    proof {
        assert(labels.take(n as int) =~= labels);
        assert(predicted@.take(n as int) =~= predicted@);
        lemma_accuracy_bounds(labels, predicted@);
    }
    Ok((correct, n))
}

/// The seed of one trial: the trial index combined with a fixed constant,
/// distinct for distinct trials.
pub open spec fn trial_seed_of(index: u32) -> u64 {
    (index * 4294967296 + 1) as u64
}

/// Derive the reproducible seed of the trial at `index`.
pub fn trial_seed(index: u32) -> (s: u64)
    ensures
        s == trial_seed_of(index),
{
    (index as u64) * 4294967296u64 + 1
}

/// Law: distinct trials draw from distinct seeds.
pub proof fn lemma_trial_seed_injective(i: u32, j: u32)
    requires
        i != j,
    ensures
        trial_seed_of(i) != trial_seed_of(j),
{
}

} // verus!
