//! The states of transactions.

use shrestidb::execution::transaction::{TransactionManager, TransactionState};

#[test]
fn test_transaction_lifecycle() {
    let mut tm = TransactionManager::new();
    let tx_id = tm.begin();
    tm.commit(tx_id);

    let txs = &tm.transactions;
    assert_eq!(txs[&tx_id.0].state, TransactionState::Committed);
}
