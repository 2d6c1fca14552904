use dtree::{DTreeBuilder, Field, InputError, Leaf, Node, Ratio, Row, Table, Tree, Values};

fn name(s: &str) -> String {
    s.to_string()
}

fn table(columns: Vec<(&str, Values)>) -> Table {
    let mut table = Table::new();
    for (n, values) in columns {
        table = table.with_column(name(n), values).unwrap();
    }
    table
}

fn unlimited() -> DTreeBuilder {
    DTreeBuilder { max_depth: usize::MAX, min_node_size: 1 }
}

#[test]
fn separable_data_gives_one_rule_and_two_pure_leaves() {
    let data = table(vec![
        ("x", Values::Continuous(vec![Some(1), Some(2), Some(3), Some(10), Some(11), Some(12)])),
        ("y", Values::Categorical(vec![Some(0), Some(0), Some(0), Some(1), Some(1), Some(1)])),
    ]);
    let tree = unlimited().build(&data, &vec![name("x")], &name("y")).unwrap();
    match tree.root {
        Some(Node::Internal { rule, higher, lower }) => {
            assert_eq!(rule.dimension, "x");
            assert_eq!(rule.cutoff.twice, 13);
            match (*higher, *lower) {
                (Node::Leaf(h), Node::Leaf(l)) => {
                    assert_eq!(h, Leaf { prediction: 1, confidence: Ratio { num: 3, den: 3 } });
                    assert_eq!(l, Leaf { prediction: 0, confidence: Ratio { num: 3, den: 3 } });
                }
                other => panic!("children are not leaves: {:?}", other),
            }
        }
        other => panic!("root is not a rule: {:?}", other),
    }
}

#[test]
fn one_label_gives_a_single_sure_leaf() {
    let data = table(vec![
        ("x", Values::Continuous(vec![Some(1), Some(5), Some(9)])),
        ("y", Values::Categorical(vec![Some(7), Some(7), Some(7)])),
    ]);
    for max_depth in [0usize, 1, 5, usize::MAX] {
        let builder = DTreeBuilder { max_depth, min_node_size: 1 };
        let tree = builder.build(&data, &vec![name("x")], &name("y")).unwrap();
        match tree.root {
            Some(Node::Leaf(leaf)) => {
                assert_eq!(leaf.prediction, 7);
                assert_eq!(leaf.confidence, Ratio { num: 3, den: 3 });
            }
            other => panic!("not a single leaf: {:?}", other),
        }
    }
}

#[test]
fn training_rows_are_predicted_as_labelled() {
    let xs = vec![Some(1), Some(2), Some(3), Some(4), Some(5), Some(6), Some(7), Some(8)];
    let zs = vec![Some(5), Some(1), Some(5), Some(1), Some(5), Some(1), Some(5), Some(1)];
    let ys = vec![Some(0), Some(1), Some(0), Some(2), Some(2), Some(1), Some(0), Some(1)];
    let data = table(vec![
        ("x", Values::Continuous(xs)),
        ("z", Values::Continuous(zs)),
        ("y", Values::Categorical(ys.clone())),
    ]);
    let tree = unlimited().build(&data, &vec![name("x"), name("z")], &name("y")).unwrap();
    for i in 0..data.rows() {
        let leaf = tree.predict(&data.row(i)).unwrap();
        assert_eq!(Some(leaf.prediction), ys[i]);
        assert!(leaf.confidence.is_one());
    }
}

#[test]
fn empty_table_gives_empty_tree() {
    let data = table(vec![
        ("x", Values::Continuous(vec![])),
        ("y", Values::Categorical(vec![])),
    ]);
    let tree = unlimited().build(&data, &vec![name("x")], &name("y")).unwrap();
    assert!(tree.is_empty());
    let row = Row { fields: vec![Field { name: name("x"), value: Some(3) }] };
    assert_eq!(tree.predict(&row), None);
    assert_eq!(Tree::new().predict(&row), None);
}

#[test]
fn all_labels_missing_gives_empty_tree() {
    let data = table(vec![
        ("x", Values::Continuous(vec![Some(1), Some(2)])),
        ("y", Values::Categorical(vec![None, None])),
    ]);
    let tree = unlimited().build(&data, &vec![name("x")], &name("y")).unwrap();
    assert!(tree.is_empty());
}

#[test]
fn faults_are_reported() {
    let data = table(vec![
        ("x", Values::Continuous(vec![Some(1), Some(2)])),
        ("y", Values::Categorical(vec![Some(0), Some(1)])),
    ]);
    let b = unlimited();
    assert_eq!(b.build(&data, &vec![name("x")], &name("t")).err(), Some(InputError::TargetMissing));
    assert_eq!(
        b.build(&data, &vec![name("y")], &name("x")).err(),
        Some(InputError::TargetNotCategorical)
    );
    assert_eq!(
        b.build(&data, &vec![name("x"), name("w")], &name("y")).err(),
        Some(InputError::FeatureMissing)
    );
}

#[test]
fn depth_limit_stops_splitting() {
    let data = table(vec![
        ("x", Values::Continuous(vec![Some(1), Some(2), Some(3), Some(4)])),
        ("y", Values::Categorical(vec![Some(0), Some(1), Some(0), Some(1)])),
    ]);
    let builder = DTreeBuilder { max_depth: 0, min_node_size: 1 };
    let tree = builder.build(&data, &vec![name("x")], &name("y")).unwrap();
    match tree.root {
        Some(Node::Internal { higher, lower, .. }) => {
            assert!(matches!(*higher, Node::Leaf(_)));
            assert!(matches!(*lower, Node::Leaf(_)));
        }
        other => panic!("root is not a rule: {:?}", other),
    }
    let small = DTreeBuilder { max_depth: 9, min_node_size: 5 };
    let tree = small.build(&data, &vec![name("x")], &name("y")).unwrap();
    match tree.root {
        Some(Node::Leaf(leaf)) => {
            assert_eq!(leaf, Leaf { prediction: 0, confidence: Ratio { num: 2, den: 4 } });
        }
        other => panic!("not a leaf: {:?}", other),
    }
}

#[test]
fn a_side_without_labels_falls_back_to_a_leaf() {
    let data = table(vec![
        ("x", Values::Continuous(vec![Some(1), Some(1), Some(2)])),
        ("y", Values::Categorical(vec![Some(0), Some(1), None])),
    ]);
    let tree = unlimited().build(&data, &vec![name("x")], &name("y")).unwrap();
    match tree.root {
        Some(Node::Leaf(leaf)) => {
            assert_eq!(leaf, Leaf { prediction: 0, confidence: Ratio { num: 1, den: 2 } });
        }
        other => panic!("not a leaf: {:?}", other),
    }
}

#[test]
fn no_feature_gives_a_leaf() {
    let data = table(vec![
        ("x", Values::Continuous(vec![Some(1), Some(2), Some(3)])),
        ("y", Values::Categorical(vec![Some(0), Some(1), Some(1)])),
    ]);
    let tree = unlimited().build(&data, &vec![], &name("y")).unwrap();
    match tree.root {
        Some(Node::Leaf(leaf)) => {
            assert_eq!(leaf, Leaf { prediction: 1, confidence: Ratio { num: 2, den: 3 } });
        }
        other => panic!("not a leaf: {:?}", other),
    }
    // a categorical feature is not split on
    let tree = unlimited().build(&data, &vec![name("y")], &name("y")).unwrap();
    assert!(matches!(tree.root, Some(Node::Leaf(_))));
}

#[test]
fn prediction_follows_the_rules() {
    let data = table(vec![
        ("x", Values::Continuous(vec![Some(1), Some(2), Some(10), Some(11)])),
        ("y", Values::Categorical(vec![Some(5), Some(5), Some(8), Some(8)])),
    ]);
    let tree = unlimited().build(&data, &vec![name("x")], &name("y")).unwrap();
    let row = |value: Option<i64>| Row { fields: vec![Field { name: name("x"), value }] };
    let sure = |prediction: u32| Some(Leaf { prediction, confidence: Ratio { num: 2, den: 2 } });
    assert_eq!(tree.predict(&row(Some(100))), sure(8));
    assert_eq!(tree.predict(&row(Some(6))), sure(8));
    assert_eq!(tree.predict(&row(Some(5))), sure(5));
    assert_eq!(tree.predict(&row(Some(-3))), sure(5));
    // without a value for the feature of a rule there is no prediction
    assert_eq!(tree.predict(&row(None)), None);
    assert_eq!(tree.predict(&Row { fields: vec![] }), None);
    let other = Row { fields: vec![Field { name: name("z"), value: Some(1) }] };
    assert_eq!(tree.predict(&other), None);
}

#[test]
fn the_same_feature_may_be_split_on_again() {
    let data = table(vec![
        ("x", Values::Continuous(vec![Some(1), Some(2), Some(3), Some(4), Some(5), Some(6)])),
        ("y", Values::Categorical(vec![Some(0), Some(0), Some(1), Some(1), Some(0), Some(0)])),
    ]);
    let tree = unlimited().build(&data, &vec![name("x")], &name("y")).unwrap();
    match &tree.root {
        Some(Node::Internal { rule, higher, lower }) => {
            assert_eq!(rule.dimension, "x");
            let below = matches!(**lower, Node::Internal { .. });
            let above = matches!(**higher, Node::Internal { .. });
            assert!(below || above);
        }
        other => panic!("root is not a rule: {:?}", other),
    }
    for (i, label) in [0u32, 0, 1, 1, 0, 0].iter().enumerate() {
        assert_eq!(tree.predict(&data.row(i)).unwrap().prediction, *label);
    }
}

#[test]
fn trees_are_made_from_nodes() {
    let leaf = Leaf { prediction: 3, confidence: Ratio { num: 1, den: 4 } };
    let tree = Tree::from_node(Node::Leaf(leaf));
    assert!(!tree.is_empty());
    assert_eq!(tree.predict(&Row { fields: vec![] }), Some(leaf));
    assert!(Tree::new().is_empty());
}

#[test]
fn a_larger_table_is_separated_in_full() {
    // a fixed pseudo-random table: 200 rows, three features, three classes
    let mut state: u64 = 0x2545_f491_4f6c_dd1d;
    let mut next = move || {
        state ^= state << 13;
        state ^= state >> 7;
        state ^= state << 17;
        state
    };
    let rows = 200;
    let mut a = Vec::new();
    let mut b = Vec::new();
    let mut c = Vec::new();
    let mut y = Vec::new();
    for i in 0..rows {
        let x = (next() % 1000) as i64;
        let z = (next() % 50) as i64 - 25;
        a.push(Some(x));
        b.push(if i % 17 == 0 { None } else { Some(z) });
        c.push(Some(i as i64));
        y.push(Some(((x / 100 + z.rem_euclid(3)) % 3) as u32));
    }
    let data = table(vec![
        ("a", Values::Continuous(a)),
        ("b", Values::Continuous(b.clone())),
        ("c", Values::Continuous(c)),
        ("y", Values::Categorical(y.clone())),
    ]);
    let features = vec![name("a"), name("b"), name("c")];
    let tree = unlimited().build(&data, &features, &name("y")).unwrap();
    let mut predicted = 0;
    for i in 0..rows {
        match tree.predict(&data.row(i)) {
            Some(leaf) => {
                if leaf.confidence.is_one() {
                    assert_eq!(Some(leaf.prediction), y[i]);
                }
                predicted += 1;
            }
            None => assert!(b[i].is_none()),
        }
    }
    assert!(predicted >= rows - rows / 17 - 1);
    let shallow = DTreeBuilder { max_depth: 1, min_node_size: 10 };
    let stump = shallow.build(&data, &features, &name("y")).unwrap();
    assert!(!stump.is_empty());
}
