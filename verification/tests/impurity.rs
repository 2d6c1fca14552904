use dtree::{estimate_gini, gini, Ratio};

#[test]
fn single_category_is_pure() {
    for count in [1u64, 2, 17, u64::MAX] {
        let g = gini(&[count]);
        assert_eq!(g.num, 0);
        assert!(g.den > 0);
        assert!(g.is_zero());
    }
}

#[test]
fn equal_categories_give_one_minus_one_over_k() {
    for k in 1u128..8 {
        let counts = vec![6u64; k as usize];
        let g = gini(&counts);
        assert_eq!(g.num * k, g.den * (k - 1));
    }
}

#[test]
fn gini_is_exact() {
    // 1 - (1/6)^2 - (2/6)^2 - (3/6)^2 = 22/36
    assert_eq!(gini(&[1, 2, 3]), Ratio { num: 22, den: 36 });
    // categories without rows change nothing
    assert_eq!(gini(&[0, 1, 0, 2, 3, 0]), Ratio { num: 22, den: 36 });
}

#[test]
fn gini_lies_in_the_unit_interval() {
    let samples: Vec<Vec<u64>> = vec![
        vec![1],
        vec![1, 1],
        vec![3, 0, 9],
        vec![1000, 1, 1, 1],
        vec![u64::MAX / 2, u64::MAX / 2],
        vec![7; 100],
    ];
    for counts in samples {
        let g = gini(&counts);
        assert!(g.den > 0);
        assert!(g.num <= g.den);
        let nonzero = counts.iter().filter(|c| **c > 0).count() as f64;
        let value = g.num as f64 / g.den as f64;
        assert!(value <= 1.0 - 1.0 / nonzero + 1e-12);
    }
}

#[test]
fn gini_of_large_counts_does_not_overflow() {
    let g = gini(&[u64::MAX]);
    assert_eq!(g.den, (u64::MAX as u128) * (u64::MAX as u128));
    assert_eq!(g.num, 0);
}

#[test]
fn label_impurity_ignores_missing_labels() {
    let labels = [Some(4u32), None, Some(9), Some(4), None, Some(4)];
    assert_eq!(estimate_gini(&labels), Some(Ratio { num: 6, den: 16 }));
    assert_eq!(estimate_gini(&[None, None]), None);
    assert_eq!(estimate_gini(&[]), None);
}
