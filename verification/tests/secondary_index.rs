//! Indexes over values.

use shrestidb::execution::operators::Value;
use shrestidb::execution::secondary_index::{Bound, SecondaryIndex};

#[test]
fn test_equals_finds_matching_rows() {
    let mut index = SecondaryIndex::new();
    index.insert(Value::String("Bob".to_string()), 1);
    index.insert(Value::String("Alice".to_string()), 2);
    index.insert(Value::String("Bob".to_string()), 3);

    let mut ids = index.equals(&Value::String("Bob".to_string()));
    ids.sort();
    assert_eq!(ids, vec![1, 3]);
    assert!(index.equals(&Value::String("Carol".to_string())).is_empty());
}

#[test]
fn test_range_on_integers() {
    let mut index = SecondaryIndex::new();
    for (value, row_id) in [(10, 1), (20, 2), (30, 3), (40, 4)] {
        index.insert(Value::Integer(value), row_id);
    }

    let mut ids = index.range(Bound::Included(Value::Integer(20)), Bound::Included(Value::Integer(30)));
    ids.sort();
    assert_eq!(ids, vec![2, 3]);

    let mut ids = index.range(Bound::Excluded(Value::Integer(20)), Bound::Unbounded);
    ids.sort();
    assert_eq!(ids, vec![3, 4]);
}

#[test]
fn test_empty_index_returns_empty() {
    let index = SecondaryIndex::new();
    assert!(index.equals(&Value::Integer(1)).is_empty());
    assert!(index.range(Bound::Unbounded, Bound::Unbounded).is_empty());
}

#[test]
fn a_range_that_ends_before_it_begins_is_empty() {
    let mut index = SecondaryIndex::new();
    for (value, row_id) in [(10, 1), (20, 2), (30, 3), (40, 4)] {
        index.insert(Value::Integer(value), row_id);
    }
    let between = |a: i64, b: i64| (Bound::Included(Value::Integer(a)), Bound::Included(Value::Integer(b)));
    let (low, high) = between(30, 20);
    assert!(index.range(low, high).is_empty());
    let open = index.range(Bound::Excluded(Value::Integer(20)), Bound::Excluded(Value::Integer(20)));
    assert!(open.is_empty());
    let (low, high) = between(20, 20);
    assert_eq!(index.range(low, high), vec![2]);
}

#[test]
fn a_range_lists_each_entry_by_value_and_then_by_entry() {
    let mut index = SecondaryIndex::new();
    let entered = [
        (Value::Integer(7), 1),
        (Value::Null, 2),
        (Value::Integer(3), 3),
        (Value::Integer(7), 4),
        (Value::String("a".to_string()), 5),
        (Value::Boolean(true), 6),
        (Value::Integer(3), 3),
    ];
    for (value, row_id) in entered {
        index.insert(value, row_id);
    }
    assert_eq!(index.range(Bound::Unbounded, Bound::Unbounded), vec![2, 6, 3, 3, 1, 4, 5]);
    assert_eq!(index.equals(&Value::Integer(7)), vec![1, 4]);
    let seven = || Bound::Included(Value::Integer(7));
    assert_eq!(index.range(seven(), seven()), vec![1, 4]);
    assert!(index.equals(&Value::Integer(4)).is_empty());
}

#[test]
fn an_index_suits_values_of_its_kind() {
    let mut index = SecondaryIndex::new();
    assert!(index.suits(&Value::Integer(1)));
    index.insert(Value::Null, 1);
    assert!(index.suits(&Value::Integer(1)));
    index.insert(Value::Integer(4), 2);
    assert!(index.suits(&Value::Integer(1)));
    assert!(!index.suits(&Value::String("4".to_string())));
    index.insert(Value::String("x".to_string()), 3);
    assert!(!index.suits(&Value::Integer(1)));
}
