use dtree::{count_groups, predict_majority, value_counts, ClassCount, Leaf, Ratio};

#[test]
fn test_count_groups() {
    let input: [Option<u32>; 14] = [
        Some(1u32),
        Some(1u32),
        Some(3u32),
        Some(2u32),
        None,
        Some(1u32),
        None,
        Some(2u32),
        Some(3u32),
        None,
        Some(2u32),
        Some(2u32),
        None,
        None,
    ];
    let result = count_groups(&input);
    println!("{:?}", result);
    assert_eq!(result.get(&2u32), Some(&4u32));
}

#[test]
fn test_predict_majority() {
    let input: [Option<u32>; 14] = [
        Some(1u32),
        Some(1u32),
        Some(3u32),
        Some(2u32),
        None,
        Some(1u32),
        None,
        Some(2u32),
        Some(3u32),
        None,
        Some(2u32),
        Some(2u32),
        None,
        None,
    ];
    let result = predict_majority(&input);
    assert!(result.is_some());
    let result = result.unwrap();
    assert_eq!(result.prediction, 2u32);
    let confidence = result.confidence.num as f64 / result.confidence.den as f64;
    assert!(confidence < 0.5);
    assert!(confidence > 0.4);
    assert_eq!(result.confidence, Ratio { num: 4, den: 9 });
}

#[test]
fn count_groups_counts_every_class_and_nothing_else() {
    let input = [Some(1u32), Some(1), Some(3), Some(2), None, Some(1), None, Some(2), Some(3)];
    let result = count_groups(&input);
    assert_eq!(result.len(), 3);
    assert_eq!(result.get(&1), Some(&3));
    assert_eq!(result.get(&2), Some(&2));
    assert_eq!(result.get(&3), Some(&2));
    assert_eq!(result.get(&0), None);
    assert!(count_groups(&[None, None]).is_empty());
    assert!(count_groups(&[]).is_empty());
}

#[test]
fn value_counts_lists_classes_in_order_of_appearance() {
    let input = [None, Some(7u32), Some(2), Some(7), None, Some(5), Some(2), Some(7)];
    assert_eq!(
        value_counts(&input),
        vec![
            ClassCount { code: 7, count: 3 },
            ClassCount { code: 2, count: 2 },
            ClassCount { code: 5, count: 1 },
        ]
    );
    assert_eq!(value_counts(&[None]), vec![]);
}

#[test]
fn all_missing_labels_have_no_majority() {
    assert_eq!(predict_majority(&[None, None, None]), None);
    assert_eq!(predict_majority(&[]), None);
}

#[test]
fn majority_tie_goes_to_the_smallest_code() {
    let leaf = predict_majority(&[Some(9), Some(4), Some(9), Some(4), Some(6)]).unwrap();
    assert_eq!(leaf, Leaf { prediction: 4, confidence: Ratio { num: 2, den: 5 } });
    let leaf = predict_majority(&[Some(4), Some(9), Some(4), Some(9), Some(6)]).unwrap();
    assert_eq!(leaf.prediction, 4);
}

#[test]
fn single_label_has_confidence_one() {
    let leaf = predict_majority(&[None, Some(3), None]).unwrap();
    assert_eq!(leaf, Leaf { prediction: 3, confidence: Ratio { num: 1, den: 1 } });
    assert!(leaf.confidence.is_one());
}
