//! What locks, transactions, sweeps and indexed values promise.

use vstd::prelude::*;
use crate::execution::learned_retention::{
    counted_write, learned, worth_a_sweep, writes_of, Retention,
};
use crate::execution::lock_manager::{
    entry_of, given_up, grantable, granted, holds, listed, no_entry, queued, requested, upgraded,
    without, Entry, LockMode, Locks,
};
use crate::execution::mvcc_store::{pruned, target, TableModel, Version, Write};
use crate::execution::oltp::{
    aborted, after_sweeps, begun, buffer_of, committed, snapshot_of, Engine,
};
use crate::execution::operators::Datum;
use crate::execution::row_key::{row_code, rows_are_told_apart};
use crate::execution::secondary_index::{above, beneath, key_order, End};
use crate::execution::transaction::{TransactionId, TransactionState};
use crate::float::{
    is_at_most, is_less, total_order_extends_the_order, FloatModel, FloatOp, Order, F64,
};
use crate::index::models::{fitted, predicted};
use crate::text::{text_less, text_order_is_total};

verus! {

// ---- locks --------------------------------------------------------------------------

/// Someone in a list asks for, or has, an exclusive lock.
pub open spec fn has_exclusive(s: Seq<(TransactionId, LockMode)>) -> bool {
    exists|i: int| 0 <= i < s.len() && (#[trigger] s[i]).1 == LockMode::Exclusive
}

/// A row that nobody holds or waits for is given in either mode. A shared lock is given
/// beside other shared ones while nobody waits for an exclusive one; an exclusive lock only
/// on a row that nobody else holds. Who holds a row gets a shared lock on it, and an
/// exclusive one where nobody else holds it.
pub proof fn locks_are_given_where_they_are_free(
    e: Entry,
    tx: TransactionId,
)
    ensures
        grantable(no_entry(), tx, LockMode::Shared),
        grantable(no_entry(), tx, LockMode::Exclusive),
        !listed(e.holders, tx) ==> (grantable(e, tx, LockMode::Shared) <==> !has_exclusive(
            e.holders,
        ) && !has_exclusive(e.waiters)),
        !listed(e.holders, tx) ==> (grantable(e, tx, LockMode::Exclusive) <==> e.holders.len()
            == 0),
        listed(e.holders, tx) ==> grantable(e, tx, LockMode::Shared),
        listed(e.holders, tx) ==> (grantable(e, tx, LockMode::Exclusive) <==> e.holders.len()
            == 1),
{
    if !has_exclusive(e.holders) {
        assert forall|i: int| 0 <= i < e.holders.len() implies (#[trigger] e.holders[i]).1
            == LockMode::Shared by {}
    }
    if !has_exclusive(e.waiters) {
        assert forall|i: int| 0 <= i < e.waiters.len() implies (#[trigger] e.waiters[i]).1
            == LockMode::Shared by {}
    }
}

proof fn lemma_without(s: Seq<(TransactionId, LockMode)>, tx: TransactionId, other: TransactionId)
    ensures
        !listed(without(s, tx), tx),
        other != tx ==> (listed(without(s, tx), other) <==> listed(s, other)),
    decreases s.len(),
{
    if s.len() > 0 {
        lemma_without(s.drop_last(), tx, other);
        let rest = without(s.drop_last(), tx);
        let all = without(s, tx);
        if s.last().0 == tx {
            if listed(s, other) && other != tx {
                let i = choose|i: int| 0 <= i < s.len() && (#[trigger] s[i]).0 == other;
                assert(s.drop_last()[i].0 == other);
            }
            if listed(s.drop_last(), other) {
                let i = choose|i: int|
                    0 <= i < s.drop_last().len() && (#[trigger] s.drop_last()[i]).0 == other;
                assert(s[i].0 == other);
            }
        } else {
            assert(all == rest.push(s.last()));
            if listed(all, tx) {
                let i = choose|i: int| 0 <= i < all.len() && (#[trigger] all[i]).0 == tx;
                assert(rest[i].0 == tx);
            }
            if listed(all, other) {
                let i = choose|i: int| 0 <= i < all.len() && (#[trigger] all[i]).0 == other;
                if i < rest.len() {
                    assert(rest[i].0 == other);
                    let j = choose|j: int|
                        0 <= j < s.drop_last().len() && (#[trigger] s.drop_last()[j]).0 == other;
                    if other != tx {
                        assert(s[j].0 == other);
                    }
                } else {
                    assert(s[s.len() - 1].0 == other);
                }
            }
            if listed(s, other) && other != tx {
                let i = choose|i: int| 0 <= i < s.len() && (#[trigger] s[i]).0 == other;
                if i < s.len() - 1 {
                    assert(s.drop_last()[i].0 == other);
                    let j = choose|j: int| 0 <= j < rest.len() && (#[trigger] rest[j]).0 == other;
                    assert(all[j].0 == other);
                } else {
                    assert(all[all.len() - 1].0 == other);
                }
            }
        }
    }
}

proof fn lemma_upgraded(s: Seq<(TransactionId, LockMode)>, tx: TransactionId, i: int)
    requires
        0 <= i <= s.len(),
    ensures
        upgraded(s, tx, i).len() == s.len(),
        forall|k: int| 0 <= k < s.len() ==> (#[trigger] upgraded(s, tx, i)[k]).0 == s[k].0,
    decreases s.len() - i,
{
    if i < s.len() && s[i].0 != tx {
        lemma_upgraded(s, tx, i + 1);
    }
}

/// A request that can be granted makes its transaction a holder, one that cannot does not;
/// nobody else's locks change, and the locks on other rows stay as they are. Who gives up
/// waiting holds what it held.
pub proof fn a_request_is_granted_or_waits(
    l: Locks,
    tx: TransactionId,
    code: u128,
    mode: LockMode,
    other: TransactionId,
    elsewhere: u128,
)
    requires
        other != tx,
    ensures
        ({
            let after = requested(l, tx, code, mode);
            &&& holds(after, tx, code) <==> grantable(entry_of(l, code), tx, mode) || holds(
                l,
                tx,
                code,
            )
            &&& holds(after, other, code) <==> holds(l, other, code)
            &&& elsewhere != code ==> entry_of(after, elsewhere) == entry_of(l, elsewhere)
            &&& holds(given_up(l, tx, code), tx, code) <==> holds(l, tx, code)
            &&& holds(given_up(l, tx, code), other, code) <==> holds(l, other, code)
            &&& !listed(entry_of(given_up(l, tx, code), code).waiters, tx)
            &&& !grantable(entry_of(l, code), tx, mode) ==> listed(
                entry_of(after, code).waiters,
                tx,
            )
        }),
{
    let e = entry_of(l, code);
    let after = requested(l, tx, code, mode);
    lemma_without(e.waiters, tx, other);
    lemma_upgraded(e.holders, tx, 0);
    if grantable(e, tx, mode) {
        let g = granted(e, tx, mode);
        assert(entry_of(after, code) == g);
        if listed(e.holders, tx) {
            let up = upgraded(e.holders, tx, 0);
            let i = choose|i: int| 0 <= i < e.holders.len() && (#[trigger] e.holders[i]).0 == tx;
            assert(up[i].0 == tx);
            if listed(e.holders, other) {
                let k = choose|k: int|
                    0 <= k < e.holders.len() && (#[trigger] e.holders[k]).0 == other;
                assert(up[k].0 == other);
            }
            if listed(up, other) {
                let k = choose|k: int| 0 <= k < up.len() && (#[trigger] up[k]).0 == other;
                assert(e.holders[k].0 == other);
            }
        } else {
            let more = e.holders.push((tx, mode));
            assert(more[e.holders.len() as int].0 == tx);
            if listed(e.holders, other) {
                let k = choose|k: int|
                    0 <= k < e.holders.len() && (#[trigger] e.holders[k]).0 == other;
                assert(more[k].0 == other);
            }
            if listed(more, other) {
                let k = choose|k: int| 0 <= k < more.len() && (#[trigger] more[k]).0 == other;
                assert(e.holders[k].0 == other);
            }
        }
    } else {
        let q = queued(e, tx, mode);
        assert(entry_of(after, code) == q);
        if !listed(e.waiters, tx) {
            assert(q.waiters[e.waiters.len() as int].0 == tx);
        }
    }
}

// ---- transactions ---------------------------------------------------------------------

/// A transaction that begins runs under a number of its own, has written nothing, and reads
/// at the time of the last commit. What is stored does not change.
pub proof fn a_transaction_begins_at_the_last_commit(e: Engine)
    requires
        e.next_tx < u64::MAX,
    ensures
        ({
            let b = begun(e);
            &&& b.tables == e.tables
            &&& b.clock == e.clock
            &&& b.next_tx == e.next_tx + 1
            &&& snapshot_of(b, e.next_tx) == e.clock
            &&& buffer_of(b, e.next_tx).len() == 0
            &&& b.transactions.dom().contains(e.next_tx)
            &&& b.transactions[e.next_tx].state == TransactionState::Running
            &&& b.transactions[e.next_tx].end_timestamp is None
            &&& b.locks == e.locks
        }),
{
}

/// A transaction that commits or aborts is marked so, and nothing of it is left buffered; a
/// commit moves the clock by one, an abort does not move it. Other transactions stay as they
/// are.
pub proof fn a_transaction_ends_as_it_was_told(e: Engine, tx: u64, other: u64, fl: FloatModel)
    requires
        e.transactions.dom().contains(tx),
        e.clock < u64::MAX,
        other != tx,
    ensures
        ({
            let c = committed(e, tx, fl);
            let a = aborted(e, tx);
            &&& c.transactions[tx].state == TransactionState::Committed
            &&& c.transactions[tx].end_timestamp is Some
            &&& a.transactions[tx].state == TransactionState::Aborted
            &&& c.clock == e.clock + 1
            &&& a.clock == e.clock
            &&& a.tables == e.tables
            &&& buffer_of(c, tx).len() == 0
            &&& buffer_of(a, tx).len() == 0
            &&& !c.snapshots.dom().contains(tx)
            &&& !a.snapshots.dom().contains(tx)
            &&& buffer_of(c, other) == buffer_of(e, other)
            &&& buffer_of(a, other) == buffer_of(e, other)
            &&& snapshot_of(c, other) == snapshot_of(e, other)
            &&& snapshot_of(a, other) == snapshot_of(e, other)
            &&& e.transactions.dom().contains(other) ==> c.transactions[other]
                == e.transactions[other] && a.transactions[other] == e.transactions[other]
        }),
{
}

// ---- sweeps ---------------------------------------------------------------------------

/// A write is counted for its row, and for no other.
pub proof fn writes_are_counted_by_row(
    p: Retention,
    table_id: u64,
    row_id: u64,
    other_table: u64,
    other_row: u64,
)
    ensures
        ({
            let n = writes_of(p, row_code(table_id, row_id));
            let q = counted_write(p, table_id, row_id);
            &&& n < u64::MAX ==> writes_of(q, row_code(table_id, row_id)) == n + 1
            &&& (other_table, other_row) != (table_id, row_id) ==> writes_of(
                q,
                row_code(other_table, other_row),
            ) == writes_of(p, row_code(other_table, other_row))
            &&& q.samples == p.samples
            &&& q.line == p.line
        }),
{
    rows_are_told_apart(table_id, row_id, other_table, other_row);
}

/// A sweep starts the count of its row anew and is remembered with the writes before it and
/// the versions that it found dead; of the sweeps, the last two hundred are remembered.
pub proof fn a_sweep_is_remembered(
    p: Retention,
    table_id: u64,
    row_id: u64,
    dead: usize,
    other_table: u64,
    other_row: u64,
    fl: FloatModel,
)
    requires
        p.samples.len() <= 200,
    ensures
        ({
            let q = learned(p, table_id, row_id, dead, fl);
            let code = row_code(table_id, row_id);
            &&& writes_of(q, code) == 0
            &&& (other_table, other_row) != (table_id, row_id) ==> writes_of(
                q,
                row_code(other_table, other_row),
            ) == writes_of(p, row_code(other_table, other_row))
            &&& q.samples.last().0.bits == (fl.gives)(FloatOp::OfCount, writes_of(p, code), 0)
            &&& q.samples.last().1.bits == (fl.gives)(FloatOp::OfCount, dead as u64, 0)
            &&& p.samples.len() < 200 ==> q.samples.len() == p.samples.len() + 1
                && q.samples.drop_last() == p.samples
            &&& p.samples.len() == 200 ==> q.samples.len() == 200 && q.samples.drop_last()
                == p.samples.drop_first()
            &&& p.line is Some ==> q.line is Some
            &&& q.samples.len() < 30 ==> q.line == p.line
        }),
{
    rows_are_told_apart(table_id, row_id, other_table, other_row);
    let q = learned(p, table_id, row_id, dead, fl);
    if p.samples.len() < 200 {
        assert(q.samples.drop_last() =~= p.samples);
    } else {
        assert(q.samples.drop_last() =~= p.samples.drop_first());
    }
}

/// With a fitted line, a row that was written to is swept where the line expects at least
/// three dead versions of it; a row that was not written to is never swept.
pub proof fn a_sweep_waits_for_dead_versions(
    p: Retention,
    table_id: u64,
    row_id: u64,
    fl: FloatModel,
)
    ensures
        writes_of(p, row_code(table_id, row_id)) == 0 ==> !worth_a_sweep(p, table_id, row_id, fl),
        writes_of(p, row_code(table_id, row_id)) > 0 && p.line is Some ==> (worth_a_sweep(
            p,
            table_id,
            row_id,
            fl,
        ) <==> is_at_most(
            0x4008_0000_0000_0000,
            predicted(
                p.line->0,
                (fl.gives)(FloatOp::OfCount, writes_of(p, row_code(table_id, row_id)), 0),
                fl,
            ),
        )),
{
}

// ---- indexed values ---------------------------------------------------------------------

/// In an index, integers stand by their numbers, texts by the order of texts, false before
/// true, and floats so that a lesser number comes first; nulls come before truth values,
/// those before integers, those before floats, and those before texts.
pub proof fn indexed_values_stand_by_their_order(
    x: i64,
    y: i64,
    s: Seq<char>,
    t: Seq<char>,
    f: u64,
    g: u64,
)
    ensures
        (key_order(Datum::Integer(x), Datum::Integer(y)) == Order::Less) <==> x < y,
        (key_order(Datum::Text(s), Datum::Text(t)) == Order::Less) <==> text_less(s, t),
        key_order(Datum::Boolean(false), Datum::Boolean(true)) == Order::Less,
        is_less(f, g) ==> key_order(Datum::Float(f), Datum::Float(g)) == Order::Less,
        key_order(Datum::Null, Datum::Boolean(true)) == Order::Less,
        key_order(Datum::Boolean(true), Datum::Integer(x)) == Order::Less,
        key_order(Datum::Integer(x), Datum::Float(f)) == Order::Less,
        key_order(Datum::Float(f), Datum::Text(s)) == Order::Less,
{
    text_order_is_total(s, t);
    total_order_extends_the_order(f, g);
}

/// An integer lies in a range between two others where it lies between the numbers, the ends
/// themselves belonging to it where they are included.
pub proof fn ranges_hold_what_lies_between(x: i64, low: i64, high: i64)
    ensures
        above(Datum::Integer(x), End::Included(Datum::Integer(low))) <==> x >= low,
        above(Datum::Integer(x), End::Excluded(Datum::Integer(low))) <==> x > low,
        beneath(Datum::Integer(x), End::Included(Datum::Integer(high))) <==> x <= high,
        beneath(Datum::Integer(x), End::Excluded(Datum::Integer(high))) <==> x < high,
        above(Datum::Integer(x), End::Unbounded),
        beneath(Datum::Integer(x), End::Unbounded),
{
}

/// A text lies in a range between two others by the order of texts.
pub proof fn ranges_of_texts_go_by_their_order(x: Seq<char>, low: Seq<char>, high: Seq<char>)
    ensures
        above(Datum::Text(x), End::Included(Datum::Text(low))) <==> !text_less(x, low),
        above(Datum::Text(x), End::Excluded(Datum::Text(low))) <==> text_less(low, x),
        beneath(Datum::Text(x), End::Included(Datum::Text(high))) <==> !text_less(high, x),
        beneath(Datum::Text(x), End::Excluded(Datum::Text(high))) <==> text_less(x, high),
{
    text_order_is_total(x, low);
    text_order_is_total(x, high);
}

/// Every twentieth remembered sweep, from the thirtieth on, a line is fitted to the writes
/// and the dead versions of those that are remembered; where there is none, and at other
/// sweeps, the line stays.
pub proof fn the_line_is_fitted_again(
    p: Retention,
    table_id: u64,
    row_id: u64,
    dead: usize,
    xs: Seq<u64>,
    ys: Seq<u64>,
    fl: FloatModel,
)
    requires
        ({
            let s = learned(p, table_id, row_id, dead, fl).samples;
            &&& xs.len() == s.len() && ys.len() == s.len()
            &&& forall|k: int| 0 <= k < s.len() ==> (#[trigger] s[k]).0.bits == xs[k]
            &&& forall|k: int| 0 <= k < s.len() ==> (#[trigger] s[k]).1.bits == ys[k]
        }),
    ensures
        ({
            let q = learned(p, table_id, row_id, dead, fl);
            let n = q.samples.len();
            &&& n >= 30 && n % 20 == 0 && fitted(xs, ys, fl) is Some ==> q.line == fitted(
                xs,
                ys,
                fl,
            )
            &&& n < 30 || n % 20 != 0 || fitted(xs, ys, fl) is None ==> q.line == p.line
        }),
{
    let q = learned(p, table_id, row_id, dead, fl);
    let s = q.samples;
    assert(s.map_values(|s: (F64, F64)| s.0.bits) =~= xs);
    assert(s.map_values(|s: (F64, F64)| s.1.bits) =~= ys);
}

/// The versions of a row; none where there is no such row.
pub open spec fn chain_at(
    tables: Map<u64, TableModel>,
    table_id: u64,
    row_id: u64,
) -> Seq<Version> {
    if tables.dom().contains(table_id) && tables[table_id].rows.dom().contains(row_id) {
        tables[table_id].rows[row_id]
    } else {
        Seq::empty()
    }
}

proof fn lemma_pruned(chain: Seq<Version>, horizon: u64, v: Version)
    ensures
        pruned(chain, horizon).contains(v) <==> chain.contains(v) && v.end_ts > horizon,
    decreases chain.len(),
{
    if chain.len() > 0 {
        let rest = pruned(chain.drop_first(), horizon);
        lemma_pruned(chain.drop_first(), horizon, v);
        assert(chain =~= seq![chain[0]] + chain.drop_first());
        assert(chain.contains(v) <==> v == chain[0] || chain.drop_first().contains(v)) by {
            if chain.contains(v) {
                let i = choose|i: int| 0 <= i < chain.len() && chain[i] == v;
                if i > 0 {
                    assert(chain.drop_first()[i - 1] == v);
                }
            }
            if chain.drop_first().contains(v) {
                let i = choose|i: int| 0 <= i < chain.len() - 1 && chain.drop_first()[i] == v;
                assert(chain[i + 1] == v);
            }
        }
        if chain[0].end_ts > horizon {
            let all = seq![chain[0]] + rest;
            assert(pruned(chain, horizon) == all);
            assert(all[0] == chain[0]);
            if rest.contains(v) {
                let i = choose|i: int| 0 <= i < rest.len() && rest[i] == v;
                assert(all[i + 1] == v);
            }
            if all.contains(v) {
                let i = choose|i: int| 0 <= i < all.len() && all[i] == v;
                if i > 0 {
                    assert(rest[i - 1] == v);
                }
            }
        }
    }
}

/// A committed write is counted for its row. Where that makes a sweep worth it, the row keeps
/// its versions that ended after the horizon, and those only; else nothing is swept. Other
/// rows are left alone either way.
pub proof fn a_commit_sweeps_where_it_is_worth_it(
    tables: Map<u64, TableModel>,
    p: Retention,
    ws: Seq<Write>,
    n: int,
    horizon: u64,
    v: Version,
    other_table: u64,
    other_row: u64,
    fl: FloatModel,
)
    requires
        0 <= n < ws.len(),
    ensures
        ({
            let before = after_sweeps(tables, p, ws, n, horizon, fl);
            let after = after_sweeps(tables, p, ws, n + 1, horizon, fl);
            let (table_id, row_id) = target(ws[n]);
            let counted = counted_write(before.1, table_id, row_id);
            let had = chain_at(before.0, table_id, row_id);
            let has = chain_at(after.0, table_id, row_id);
            &&& worth_a_sweep(counted, table_id, row_id, fl) ==> (has.contains(v) <==> had.contains(
                v,
            ) && v.end_ts > horizon) && writes_of(after.1, row_code(table_id, row_id)) == 0
            &&& !worth_a_sweep(counted, table_id, row_id, fl) ==> after.0 == before.0 && after.1
                == counted
            &&& (other_table, other_row) != (table_id, row_id) ==> chain_at(
                after.0,
                other_table,
                other_row,
            ) == chain_at(before.0, other_table, other_row)
        }),
{
    let before = after_sweeps(tables, p, ws, n, horizon, fl);
    let (table_id, row_id) = target(ws[n]);
    lemma_pruned(chain_at(before.0, table_id, row_id), horizon, v);
}

} // verus!
