use dtree::{
    best_split, candidate_cutoffs, comes_before, evaluate_columns, evaluate_metric, mask_higher,
    mask_lower, select_rows, split_metric, unique_sorted, Cutoff, InputError, Order, Table,
    Values,
};

fn name(s: &str) -> String {
    s.to_string()
}

fn table(columns: Vec<(&str, Values)>) -> Table {
    let mut table = Table::new();
    for (n, values) in columns {
        table = table.with_column(name(n), values).unwrap();
    }
    table
}

fn ratio(metric: &dtree::Metric) -> (u128, u128) {
    (metric.num.to_u128().unwrap(), metric.den.to_u128().unwrap())
}

#[test]
fn cutoffs_are_midpoints_of_neighbours() {
    let cutoffs = candidate_cutoffs(&vec![Some(1), Some(2), Some(4)]);
    let halves: Vec<f64> = cutoffs.iter().map(|c| c.twice as f64 / 2.0).collect();
    assert_eq!(halves, vec![1.5, 3.0]);
    let cutoffs = candidate_cutoffs(&vec![Some(4), Some(1), None, Some(2), Some(1)]);
    assert_eq!(cutoffs, vec![Cutoff { twice: 3 }, Cutoff { twice: 6 }]);
}

#[test]
fn one_distinct_value_has_no_candidate() {
    assert_eq!(candidate_cutoffs(&vec![Some(5), Some(5), None, Some(5)]), vec![]);
    assert_eq!(candidate_cutoffs(&vec![Some(5)]), vec![]);
    assert_eq!(candidate_cutoffs(&vec![None, None]), vec![]);
    assert_eq!(candidate_cutoffs(&vec![]), vec![]);
    let data = table(vec![
        ("x", Values::Continuous(vec![Some(5), Some(5), Some(5)])),
        ("y", Values::Categorical(vec![Some(0), Some(1), Some(0)])),
    ]);
    assert_eq!(evaluate_metric(&data, &name("x"), &name("y")).unwrap().len(), 0);
}

#[test]
fn distinct_values_come_sorted() {
    let found = unique_sorted(&vec![Some(3), None, Some(-2), Some(3), Some(i64::MAX), Some(i64::MIN)]);
    assert_eq!(found, vec![i64::MIN, -2, 3, i64::MAX]);
    let cutoffs = candidate_cutoffs(&vec![Some(i64::MAX), Some(i64::MIN), Some(i64::MAX - 1)]);
    assert_eq!(cutoffs[0].twice, -1 - 1);
    assert_eq!(cutoffs[1].twice, 2 * (i64::MAX as i128) - 1);
}

#[test]
fn rows_go_to_the_side_of_their_value() {
    let values = vec![Some(1), Some(3), None, Some(2), Some(-4)];
    let cutoff = Cutoff { twice: 5 };
    assert_eq!(mask_higher(&values, cutoff), vec![false, true, false, false, false]);
    assert_eq!(mask_lower(&values, cutoff), vec![true, false, false, true, true]);
    let at_value = Cutoff { twice: 4 };
    assert_eq!(mask_higher(&values, at_value), vec![false, true, false, true, false]);
    assert_eq!(mask_lower(&values, at_value), vec![true, false, false, false, true]);
    assert_eq!(select_rows(&vec![10, 11, 12, 13, 14], &vec![true, false, false, true, true]), vec![10, 13, 14]);
}

#[test]
fn metric_of_separating_threshold_is_zero() {
    let data = table(vec![
        ("x", Values::Continuous(vec![Some(1), Some(2), Some(10), Some(11)])),
        ("y", Values::Categorical(vec![Some(0), Some(0), Some(1), Some(1)])),
    ]);
    let found = evaluate_metric(&data, &name("x"), &name("y")).unwrap();
    assert_eq!(found.len(), 3);
    assert_eq!(found[1].split.twice, 12);
    assert!(found[1].metric.is_zero());
    assert!(!found[0].metric.is_zero());
    // (3 * (4/9) + 1 * 0) / 4 = 1/3
    let (num, den) = ratio(&found[0].metric);
    assert_eq!(num * 3, den);
}

#[test]
fn metric_is_the_weighted_impurity() {
    // higher: rows 2, 3, 4 with labels 1, 1, 0: impurity 4/9
    // lower: rows 0, 1 with labels 0, 1: impurity 2/4
    // (3 * 4/9 + 2 * 2/4) / 5 = 7/15
    let values = vec![Some(1), Some(2), Some(7), Some(8), Some(9)];
    let labels = vec![Some(0), Some(1), Some(1), Some(1), Some(0)];
    let metric = split_metric(&values, &labels, Cutoff { twice: 9 });
    let (num, den) = ratio(&metric);
    assert_eq!((num, den), (3 * 4 * 4 + 2 * 2 * 9, 9 * 4 * 5));
    assert_eq!(num * 15, den * 7);
}

#[test]
fn rows_without_a_value_are_on_neither_side() {
    // row 1 has no value: higher holds row 2, lower holds row 0; both pure;
    // the table still has three rows
    let values = vec![Some(1), None, Some(5)];
    let labels = vec![Some(0), Some(1), Some(1)];
    let metric = split_metric(&values, &labels, Cutoff { twice: 6 });
    assert_eq!(ratio(&metric), (0, 1 * 1 * 3));
}

#[test]
fn rows_without_a_label_count_as_rows_only() {
    // higher: rows 2, 3, 4 with labels 1, none, 0: impurity 2/4 over three rows
    // lower: rows 0, 1 with no label: contributes nothing
    // (3 * 2/4 + 0) / 5 = 3/10
    let values = vec![Some(1), Some(2), Some(7), Some(8), Some(9)];
    let labels = vec![None, None, Some(1), None, Some(0)];
    let metric = split_metric(&values, &labels, Cutoff { twice: 9 });
    let (num, den) = ratio(&metric);
    assert_eq!((num, den), (3 * 2 * 1, 4 * 1 * 5));
    assert_eq!(num * 10, den * 3);
}

#[test]
fn candidates_are_scored_in_ascending_order() {
    let values = vec![Some(30), Some(10), Some(20), Some(10)];
    let labels = vec![Some(1), Some(0), Some(1), Some(0)];
    let found = evaluate_columns(&values, &labels);
    assert_eq!(found.len(), 2);
    assert_eq!(found[0].split, Cutoff { twice: 30 });
    assert_eq!(found[1].split, Cutoff { twice: 50 });
    assert!(found[0].metric.is_zero());
    assert_eq!(found[0].metric.compare(&found[1].metric), Order::Less);
    assert_eq!(found[1].metric.compare(&found[0].metric), Order::Greater);
    assert_eq!(found[1].metric.compare(&found[1].metric.clone()), Order::Equal);
}

#[test]
fn search_faults_are_reported_feature_first() {
    let data = table(vec![
        ("x", Values::Continuous(vec![Some(1), Some(2)])),
        ("y", Values::Categorical(vec![Some(0), Some(1)])),
    ]);
    let fault = |feature: &str, target: &str| {
        evaluate_metric(&data, &name(feature), &name(target)).err()
    };
    assert_eq!(fault("w", "y"), Some(InputError::FeatureMissing));
    assert_eq!(fault("w", "t"), Some(InputError::FeatureMissing));
    assert_eq!(fault("y", "y"), Some(InputError::FeatureNotContinuous));
    assert_eq!(fault("y", "t"), Some(InputError::FeatureNotContinuous));
    assert_eq!(fault("x", "t"), Some(InputError::TargetMissing));
    assert_eq!(fault("x", "x"), Some(InputError::TargetNotCategorical));
    assert_eq!(fault("x", "y"), None);
}

#[test]
fn best_split_has_the_least_metric() {
    let labels = vec![Some(0), Some(0), Some(1), Some(1)];
    let data = table(vec![
        ("a", Values::Continuous(vec![Some(1), Some(9), Some(2), Some(8)])),
        ("b", Values::Continuous(vec![Some(1), Some(2), Some(8), Some(9)])),
        ("y", Values::Categorical(labels.clone())),
    ]);
    let best = best_split(&data, &vec![name("a"), name("b")], &labels).unwrap();
    assert_eq!(best.feature, 1);
    assert_eq!(best.cutoff, Cutoff { twice: 10 });
    assert!(best.metric.is_zero());
}

#[test]
fn best_split_ties_go_to_the_first_name_and_lowest_threshold() {
    let labels = vec![Some(0), Some(1), Some(0), Some(1)];
    let same = vec![Some(1), Some(2), Some(3), Some(4)];
    let data = table(vec![
        ("zeta", Values::Continuous(same.clone())),
        ("alpha", Values::Continuous(same.clone())),
        ("y", Values::Categorical(labels.clone())),
    ]);
    // thresholds 1.5 and 3.5 tie with metric 1/3; 2.5 has metric 1/2
    let best = best_split(&data, &vec![name("zeta"), name("alpha")], &labels).unwrap();
    assert_eq!(best.feature, 1);
    assert_eq!(best.cutoff, Cutoff { twice: 3 });
    let (num, den) = ratio(&best.metric);
    assert_eq!(num * 3, den);
    let best = best_split(&data, &vec![name("alpha"), name("zeta")], &labels).unwrap();
    assert_eq!(best.feature, 0);
    assert_eq!(best.cutoff, Cutoff { twice: 3 });
}

#[test]
fn features_without_candidates_give_no_split() {
    let labels = vec![Some(0), Some(1)];
    let data = table(vec![
        ("x", Values::Continuous(vec![Some(1), Some(1)])),
        ("c", Values::Categorical(vec![Some(0), Some(1)])),
        ("y", Values::Categorical(labels.clone())),
    ]);
    assert!(best_split(&data, &vec![name("x"), name("c"), name("nowhere")], &labels).is_none());
    assert!(best_split(&data, &vec![], &labels).is_none());
}

#[test]
fn names_are_ordered_by_their_bytes() {
    assert!(comes_before(&name("alpha"), &name("beta")));
    assert!(!comes_before(&name("beta"), &name("alpha")));
    assert!(comes_before(&name("ab"), &name("abc")));
    assert!(!comes_before(&name("abc"), &name("ab")));
    assert!(!comes_before(&name("same"), &name("same")));
    assert!(comes_before(&name(""), &name("a")));
    assert!(comes_before(&name("Z"), &name("a")));
    assert!(comes_before(&name("z"), &name("\u{e9}")));
}
