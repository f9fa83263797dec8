//! Trees.

use shrestidb::float::F64;
use shrestidb::index::btree::BTree;
use shrestidb::DatabaseError;

fn f(x: f64) -> F64 {
    F64 { bits: x.to_bits() }
}

#[test]
fn test_btree_insert_search() -> Result<(), DatabaseError> {
    let mut btree = BTree::new(3);
    btree.insert(f(5.0), 10)?;
    btree.insert(f(3.0), 6)?;

    assert_eq!(btree.search(f(5.0)), Some(10));
    assert_eq!(btree.search(f(3.0)), Some(6));
    Ok(())
}

#[test]
fn test_btree_actually_splits_past_order() -> Result<(), DatabaseError> {
    let mut btree = BTree::new(3);
    for k in [1.0, 2.0, 3.0, 4.0, 5.0] {
        btree.insert(f(k), k as usize)?;
    }
    assert!(btree.height() > 1, "tree with 5 keys at order 3 must have split at least once");
    Ok(())
}

#[test]
fn test_btree_search_after_many_splits() -> Result<(), DatabaseError> {
    let mut btree = BTree::new(4);
    let keys: Vec<f64> = (0..500).map(|i| i as f64).collect();
    for &k in &keys {
        btree.insert(f(k), k as usize)?;
    }
    for &k in &keys {
        assert_eq!(btree.search(f(k)), Some(k as usize), "lookup for {k} failed after splitting");
    }
    assert_eq!(btree.search(f(-1.0)), None);
    assert_eq!(btree.search(f(999.0)), None);
    Ok(())
}

#[test]
fn test_btree_insert_updates_existing_key_rather_than_duplicating() -> Result<(), DatabaseError> {
    let mut btree = BTree::new(4);
    btree.insert(f(1.0), 100)?;
    btree.insert(f(1.0), 200)?;
    assert_eq!(btree.search(f(1.0)), Some(200));
    Ok(())
}

#[test]
fn test_btree_range_search_after_splits() -> Result<(), DatabaseError> {
    let mut btree = BTree::new(4);
    for k in 0..200 {
        btree.insert(f(k as f64), k as usize)?;
    }
    let mut results = btree.range_search(f(50.0), f(60.0));
    results.sort_by(|a, b| f64::from_bits(a.0.bits).partial_cmp(&f64::from_bits(b.0.bits)).unwrap());
    let keys: Vec<f64> = results.iter().map(|(k, _)| f64::from_bits(k.bits)).collect();
    assert_eq!(keys, (50..=60).map(|k| k as f64).collect::<Vec<_>>());
    Ok(())
}

#[test]
fn test_btree_out_of_order_range_is_empty() -> Result<(), DatabaseError> {
    let mut btree = BTree::new(4);
    btree.insert(f(1.0), 1)?;
    assert!(btree.range_search(f(10.0), f(5.0)).is_empty());
    Ok(())
}

#[test]
fn test_btree_height_grows_with_more_keys() -> Result<(), DatabaseError> {
    let mut small = BTree::new(4);
    small.insert(f(1.0), 1)?;
    assert_eq!(small.height(), 1);

    let mut big = BTree::new(4);
    for k in 0..1000 {
        big.insert(f(k as f64), k as usize)?;
    }
    assert!(big.height() > small.height(), "1000 keys must produce a taller tree than 1 key");
    Ok(())
}

#[test]
fn test_btree_heap_bytes_grows_with_key_count() -> Result<(), DatabaseError> {
    let mut small = BTree::new(32);
    small.insert(f(1.0), 1)?;
    let small_bytes = small.heap_bytes();

    let mut big = BTree::new(32);
    for k in 0..10_000 {
        big.insert(f(k as f64), k as usize)?;
    }
    let big_bytes = big.heap_bytes();

    assert!(big_bytes > small_bytes, "10,000 keys must occupy more heap than 1");
    Ok(())
}
