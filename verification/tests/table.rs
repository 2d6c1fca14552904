use dtree::{Field, Row, Table, Values};

fn name(s: &str) -> String {
    s.to_string()
}

#[test]
fn new_table_is_empty() {
    let table = Table::new();
    assert_eq!(table.width(), 0);
    assert_eq!(table.rows(), 0);
    assert_eq!(table.find(&name("x")), None);
}

#[test]
fn columns_must_agree_in_length() {
    let table = Table::new()
        .with_column(name("x"), Values::Continuous(vec![Some(1), None]))
        .unwrap();
    assert_eq!(table.rows(), 2);
    assert!(table.with_column(name("y"), Values::Categorical(vec![Some(1)])).is_none());
    let table = Table::new()
        .with_column(name("x"), Values::Continuous(vec![]))
        .unwrap()
        .with_column(name("y"), Values::Categorical(vec![]))
        .unwrap();
    assert_eq!((table.width(), table.rows()), (2, 0));
}

#[test]
fn lookup_finds_the_first_column_of_a_name() {
    let table = Table::new()
        .with_column(name("x"), Values::Continuous(vec![Some(1)]))
        .unwrap()
        .with_column(name("y"), Values::Categorical(vec![Some(7)]))
        .unwrap()
        .with_column(name("x"), Values::Categorical(vec![Some(9)]))
        .unwrap();
    assert_eq!(table.find(&name("x")), Some(0));
    assert_eq!(table.find(&name("y")), Some(1));
    assert_eq!(table.find(&name("z")), None);
    assert_eq!(table.continuous(&name("x")), Some(&vec![Some(1)]));
    assert_eq!(table.categorical(&name("x")), None);
    assert_eq!(table.categorical(&name("y")), Some(&vec![Some(7)]));
    assert_eq!(table.column(2).unwrap().name, "x");
    assert!(table.column(3).is_none());
    assert_eq!(table.lookup(&name("y")).unwrap().name, "y");
    assert!(table.lookup(&name("z")).is_none());
}

#[test]
fn filter_keeps_marked_rows_of_every_column() {
    let table = Table::new()
        .with_column(name("x"), Values::Continuous(vec![Some(1), None, Some(3), Some(4)]))
        .unwrap()
        .with_column(name("y"), Values::Categorical(vec![Some(0), Some(1), None, Some(1)]))
        .unwrap();
    let kept = table.filter(&vec![false, true, true, false]);
    assert_eq!(kept.rows(), 2);
    assert_eq!(kept.width(), 2);
    assert_eq!(kept.continuous(&name("x")), Some(&vec![None, Some(3)]));
    assert_eq!(kept.categorical(&name("y")), Some(&vec![Some(1), None]));
    let none = table.filter(&vec![false; 4]);
    assert_eq!((none.width(), none.rows()), (2, 0));
    // rows without a mark are not kept, marks without a row mark nothing
    let short = table.filter(&vec![true, true]);
    assert_eq!(short.continuous(&name("x")), Some(&vec![Some(1), None]));
    let long = table.filter(&vec![false, false, false, true, true, true]);
    assert_eq!(long.categorical(&name("y")), Some(&vec![Some(1)]));
}

#[test]
fn rows_hold_the_continuous_values() {
    let table = Table::new()
        .with_column(name("x"), Values::Continuous(vec![Some(1), None]))
        .unwrap()
        .with_column(name("y"), Values::Categorical(vec![Some(0), Some(1)]))
        .unwrap();
    let row = table.row(0);
    assert_eq!(row.value(&name("x")), Some(1));
    assert_eq!(row.value(&name("y")), None);
    assert_eq!(row.value(&name("z")), None);
    assert_eq!(table.row(1).value(&name("x")), None);
    assert_eq!(table.row(2).value(&name("x")), None);
    assert_eq!(table.row(2).fields.len(), 2);
    let own = Row {
        fields: vec![
            Field { name: name("a"), value: Some(5) },
            Field { name: name("a"), value: Some(6) },
        ],
    };
    assert_eq!(own.value(&name("a")), Some(5));
}

#[test]
fn placing_what_was_read_adds_at_most_one_column() {
    let table = Table::new().place(name("x"), Some(vec![Some(1), Some(2)]), None).unwrap();
    assert_eq!(table.continuous(&name("x")), Some(&vec![Some(1), Some(2)]));
    let table = table.place(name("note"), None, None).unwrap();
    assert_eq!(table.width(), 1);
    let table = table.place(name("y"), None, Some(vec![None, Some(3)])).unwrap();
    assert_eq!(table.categorical(&name("y")), Some(&vec![None, Some(3)]));
    assert!(table.place(name("z"), None, Some(vec![Some(3)])).is_none());
}
