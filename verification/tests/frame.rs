use dtree::{DTreeBuilder, Node, Table};
use polars::prelude::{CategoricalOrdering, DataFrame, DataType, NamedFrom, Series};

#[test]
fn frame_columns_are_read_by_type() {
    let frame = DataFrame::new(vec![
        Series::new("x", &[Some(3i64), None, Some(-7)]),
        Series::new("note", &["a", "b", "c"]),
        Series::new("y", &[Some(1u32), Some(0), None]),
        Series::new("w", &[1.5f64, 2.5, 3.5]),
    ])
    .unwrap();
    let table = Table::from_frame(&frame).unwrap();
    assert_eq!(table.width(), 2);
    assert_eq!(table.rows(), 3);
    assert_eq!(table.continuous(&"x".to_string()), Some(&vec![Some(3i64), None, Some(-7)]));
    assert_eq!(table.categorical(&"y".to_string()), Some(&vec![Some(1u32), Some(0), None]));
    assert_eq!(table.continuous(&"y".to_string()), None);
    assert_eq!(table.categorical(&"note".to_string()), None);
    assert_eq!(table.continuous(&"w".to_string()), None);
}

#[test]
fn categories_are_read_as_codes() {
    let labels = Series::new("kind", &["hare", "fox", "hare", "hare"])
        .cast(&DataType::Categorical(None, CategoricalOrdering::Physical))
        .unwrap();
    let frame =
        DataFrame::new(vec![Series::new("size", &[2i64, 9, 3, 1]), labels]).unwrap();
    let table = Table::from_frame(&frame).unwrap();
    let codes = table.categorical(&"kind".to_string()).unwrap();
    assert_eq!(codes.len(), 4);
    assert_eq!(codes[0], codes[2]);
    assert_eq!(codes[0], codes[3]);
    assert!(codes[0].is_some() && codes[1].is_some());
    assert_ne!(codes[0], codes[1]);
}

#[test]
fn tree_is_built_from_a_frame() {
    let frame = DataFrame::new(vec![
        Series::new("x", &[1i64, 2, 10, 11]),
        Series::new("y", &[0u32, 0, 1, 1]),
    ])
    .unwrap();
    let table = Table::from_frame(&frame).unwrap();
    let builder = DTreeBuilder { max_depth: 3, min_node_size: 1 };
    let tree = builder.build(&table, &vec!["x".to_string()], &"y".to_string()).unwrap();
    match tree.root {
        Some(Node::Internal { rule, .. }) => {
            assert_eq!(rule.dimension, "x");
            assert_eq!(rule.cutoff.twice, 12);
        }
        other => panic!("root is not a rule: {:?}", other),
    }
}

#[test]
fn empty_frame_gives_empty_table() {
    let table = Table::from_frame(&DataFrame::default()).unwrap();
    assert_eq!(table.width(), 0);
    assert_eq!(table.rows(), 0);
}
