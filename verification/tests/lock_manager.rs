//! Locks on rows.

use shrestidb::execution::lock_manager::{LockKey, LockManager, LockMode};
use shrestidb::execution::transaction::TransactionId;

fn tx(id: u64) -> TransactionId { TransactionId::new(id) }
fn key(t: u64, r: u64) -> LockKey { LockKey::new(t, r) }

#[test]
fn test_shared_shared_compatible() {
    let mut lm = LockManager::new();
    lm.acquire_shared(tx(1), key(1, 1)).unwrap();
    lm.acquire_shared(tx(2), key(1, 1)).unwrap();
    lm.release_all(tx(1));
    lm.release_all(tx(2));
}

#[test]
fn test_exclusive_blocks_and_times_out() {
    let mut lm = LockManager::new();
    lm.acquire_exclusive(tx(10), key(2, 1)).unwrap();

    let result = lm.acquire_exclusive(tx(11), key(2, 1));

    assert!(result.is_err(), "Should time out with deadlock error");
    lm.release_all(tx(10));
}

#[test]
fn test_reentrant_upgrade() {
    let mut lm = LockManager::new();
    lm.acquire_shared(tx(1), key(3, 1)).unwrap();
    lm.acquire_exclusive(tx(1), key(3, 1)).unwrap();
    lm.release_all(tx(1));
    assert_eq!(lm.lock_count(), 0, "release_all should have fully cleared the row's entry, not left a residual one behind");
    lm.acquire_exclusive(tx(2), key(3, 1)).unwrap();
}

#[test]
fn test_release_all_only_releases_that_transactions_own_locks() {
    let mut lm = LockManager::new();
    lm.acquire_exclusive(tx(1), key(1, 1)).unwrap();
    lm.acquire_exclusive(tx(1), key(1, 2)).unwrap();
    lm.acquire_exclusive(tx(2), key(1, 3)).unwrap();

    lm.release_all(tx(1));
    lm.acquire_exclusive(tx(3), key(1, 1)).unwrap();
    lm.acquire_exclusive(tx(3), key(1, 2)).unwrap();
    assert!(lm.acquire_exclusive(tx(4), key(1, 3)).is_err(), "tx(2)'s lock should still be held, not released by tx(1)'s release_all");
}

#[test]
fn test_release_all_on_a_transaction_holding_no_locks_is_a_harmless_no_op() {
    let mut lm = LockManager::new();
    lm.release_all(tx(99));
}

#[test]
fn test_release_all_does_not_scan_every_locked_row_in_the_database() {
    let mut lm = LockManager::new();
    let n = 200_000u64;
    for i in 0..n {
        lm.acquire_exclusive(tx(i), key(1, i)).unwrap();
    }

    let start = std::time::Instant::now();
    lm.release_all(tx(0));
    let elapsed = start.elapsed();
    assert!(
        elapsed.as_millis() < 10,
        "releasing 1 lock took {elapsed:?} with {n} other rows locked -- looks like the full-table-scan behavior again"
    );
}

#[test]
fn test_release_unblocks_waiter() {
    let mut lm = LockManager::new();
    lm.acquire_exclusive(tx(1), key(4, 1)).unwrap();

    assert!(!lm.request(tx(2), key(4, 1), LockMode::Shared));
    assert!(lm.release_all(tx(1)));

    assert!(lm.request(tx(2), key(4, 1), LockMode::Shared));
}

#[test]
fn only_held_rows_are_counted() {
    let mut lm = LockManager::new();
    lm.acquire_exclusive(tx(1), key(5, 1)).unwrap();
    lm.acquire_shared(tx(2), key(5, 2)).unwrap();
    lm.acquire_shared(tx(3), key(5, 2)).unwrap();
    assert_eq!(lm.lock_count(), 2);

    assert!(!lm.request(tx(2), key(5, 1), LockMode::Exclusive));
    assert!(lm.release_all(tx(1)));
    assert_eq!(lm.lock_count(), 1);
    assert!(lm.request(tx(2), key(5, 1), LockMode::Exclusive));
    assert_eq!(lm.lock_count(), 2);
}
