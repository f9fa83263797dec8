//! Transactions and their states.

use vstd::prelude::*;
use std::collections::HashMap;

verus! {

/// The number of a transaction.
#[derive(Debug, Clone, Copy, PartialEq, Eq, PartialOrd, Ord, Structural)]
pub struct TransactionId(pub u64);

impl TransactionId {
    /// The id with a given number.
    pub fn new(id: u64) -> (r: Self)
        ensures
            r == TransactionId(id),
    {
        TransactionId(id)
    }
}

/// What has become of a transaction.
#[derive(Debug, Clone, Copy, PartialEq, Eq, Structural)]
pub enum TransactionState {
    Running,
    Committed,
    Aborted,
}

/// A transaction.
#[derive(Debug, Clone, Copy, PartialEq, Eq, Structural)]
pub struct Transaction {
    pub id: TransactionId,
    pub state: TransactionState,
    pub start_timestamp: u64,
    pub end_timestamp: Option<u64>,
}

impl Transaction {
    /// A transaction that runs.
    pub fn new(id: TransactionId, start_timestamp: u64) -> (r: Self)
        ensures
            r == started(id, start_timestamp),
    {
        Transaction { id, state: TransactionState::Running, start_timestamp, end_timestamp: None }
    }
}

/// A transaction that runs.
pub open spec fn started(id: TransactionId, start_timestamp: u64) -> Transaction {
    Transaction { id, state: TransactionState::Running, start_timestamp, end_timestamp: None }
}

/// Hands out transaction ids, and knows what became of each transaction.
pub struct TransactionManager {
    pub next_tx_id: u64,
    pub transactions: HashMap<u64, Transaction>,
}

/// The number behind `n`; behind the last comes zero.
pub open spec fn next_number(n: u64) -> u64 {
    if n == u64::MAX { 0 } else { (n + 1) as u64 }
}

impl TransactionManager {
    /// A manager whose first transaction has the number one.
    pub fn new() -> (r: Self)
        ensures
            r.next_tx_id == 1,
            r.transactions@ == Map::<u64, Transaction>::empty(),
    {
        broadcast use vstd::std_specs::hash::group_hash_axioms;

        TransactionManager { next_tx_id: 1, transactions: HashMap::new() }
    }

    /// Starts a transaction.
    pub fn begin(&mut self) -> (r: TransactionId)
        ensures
            r == TransactionId(old(self).next_tx_id),
            final(self).next_tx_id == next_number(old(self).next_tx_id),
            final(self).transactions@ == old(self).transactions@.insert(r.0, started(r, r.0)),
    {
        broadcast use vstd::std_specs::hash::group_hash_axioms;

        let id: u64 = self.next_tx_id;
        self.next_tx_id = if id == u64::MAX { 0 } else { id + 1 };
        let tx = Transaction::new(TransactionId::new(id), id);
        self.transactions.insert(id, tx);
        TransactionId::new(id)
    }

    /// Marks a transaction as committed. An unknown id changes nothing.
    pub fn commit(&mut self, tx_id: TransactionId)
        ensures
            final(self).next_tx_id == old(self).next_tx_id,
            final(self).transactions@ == (if old(self).transactions@.dom().contains(tx_id.0) {
                old(self).transactions@.insert(
                    tx_id.0,
                    (Transaction {
                        state: TransactionState::Committed,
                        end_timestamp: Some(old(self).next_tx_id),
                        ..old(self).transactions@[tx_id.0]
                    }),
                )
            } else {
                old(self).transactions@
            }),
    {
        broadcast use vstd::std_specs::hash::group_hash_axioms;

        let found = match self.transactions.get(&tx_id.0) {
            Some(tx) => Some(*tx),
            None => None,
        };
        match found {
            Some(tx) => {
                let done = Transaction {
                    state: TransactionState::Committed,
                    end_timestamp: Some(self.next_tx_id),
                    ..tx
                };
                self.transactions.insert(tx_id.0, done);
            },
            None => {},
        }
    }

    /// Marks a transaction as aborted. An unknown id changes nothing.
    pub fn abort(&mut self, tx_id: TransactionId)
        ensures
            final(self).next_tx_id == old(self).next_tx_id,
            final(self).transactions@ == (if old(self).transactions@.dom().contains(tx_id.0) {
                old(self).transactions@.insert(
                    tx_id.0,
                    (Transaction {
                        state: TransactionState::Aborted,
                        ..old(self).transactions@[tx_id.0]
                    }),
                )
            } else {
                old(self).transactions@
            }),
    {
        broadcast use vstd::std_specs::hash::group_hash_axioms;

        let found = match self.transactions.get(&tx_id.0) {
            Some(tx) => Some(*tx),
            None => None,
        };
        match found {
            Some(tx) => {
                let done = Transaction { state: TransactionState::Aborted, ..tx };
                self.transactions.insert(tx_id.0, done);
            },
            None => {},
        }
    }
}

impl Default for TransactionManager {
    fn default() -> (r: Self)
        ensures
            r.next_tx_id == 1,
            r.transactions@ == Map::<u64, Transaction>::empty(),
    {
        TransactionManager::new()
    }
}

} // verus!
