//! Which rows a statement changes, and into what.

use vstd::prelude::*;
use crate::error::Fault;
use crate::execution::catalog::{column_place, table_named, ColumnModel, SchemaModel};
use crate::execution::changes::{
    assignments_read, clause_predicate, delete_staged, insert_staged, locked, opened, ordered_row,
    row_assigned, rows_deleted, rows_inserted, rows_updated, update_staged, values_by_name,
    values_in_order, write_candidates, wrote,
};
use crate::execution::executor::Db;
use crate::execution::join::nulls;
use crate::execution::lock_manager::{released, Locks};
use crate::execution::mvcc_store::{row_at, seen_from, stored_at, TableModel, Write};
use crate::execution::oltp::{aborted, rows_at, Engine};
use crate::execution::operators::Datum;
use crate::execution::row_codec::assignment::{assigned_value, assignment_of, Assigned};
use crate::execution::row_codec::bytes::{bytes_row, row_bytes};
use crate::execution::row_codec::literals::literal_reading;
use crate::execution::row_codec::predicate::{keeps, Expr};
use crate::execution::scan::{decoded_rows, table_scan};
use crate::execution::statements::{settled, PendingModel};
use crate::execution::transaction::{TransactionId, TransactionState};
use crate::float::FloatModel;
use crate::sql::parser::{DeleteModel, InsertModel, UpdateModel};
use crate::text::decimal;

verus! {

// ---- insertions -----------------------------------------------------------------

proof fn lemma_in_order(
    columns: Seq<ColumnModel>,
    raw: Seq<Seq<char>>,
    i: int,
    done: Seq<Datum>,
    fl: FloatModel,
    k: int,
)
    requires
        0 <= i == done.len(),
        0 <= k,
        values_in_order(columns, raw, i, done, fl) is Ok,
    ensures
        ({
            let row = values_in_order(columns, raw, i, done, fl)->Ok_0;
            &&& row.len() >= i
            &&& k < i ==> row[k] == done[k]
            &&& i <= k < row.len() ==> k < columns.len() && k < raw.len() && literal_reading(
                raw[k],
                columns[k].data_type,
                fl,
            ) == Some(row[k])
            &&& i <= columns.len() && columns.len() <= raw.len() ==> row.len() == columns.len()
            &&& i <= raw.len() && raw.len() <= columns.len() ==> row.len() == raw.len()
        }),
    decreases columns.len() - i,
{
    if i < columns.len() && i < raw.len() {
        let d = literal_reading(raw[i], columns[i].data_type, fl)->0;
        lemma_in_order(columns, raw, i + 1, done.push(d), fl, k);
        let row = values_in_order(columns, raw, i, done, fl)->Ok_0;
        lemma_in_order(columns, raw, i + 1, done.push(d), fl, i);
        assert(row[i] == done.push(d)[i]);
        if k < i {
            assert(row[k] == done.push(d)[k]);
        }
    }
}

/// Values that are given without names fill the columns from the first on, each read as
/// its column's type asks.
pub proof fn values_fill_the_columns_in_order(
    s: SchemaModel,
    raw: Seq<Seq<char>>,
    fl: FloatModel,
    k: int,
)
    requires
        ordered_row(Seq::empty(), s, raw, fl) is Ok,
        raw.len() == s.columns.len(),
        0 <= k < raw.len(),
    ensures
        ({
            let row = ordered_row(Seq::empty(), s, raw, fl)->Ok_0;
            &&& row.len() == s.columns.len()
            &&& literal_reading(raw[k], s.columns[k].data_type, fl) == Some(row[k])
        }),
{
    lemma_in_order(s.columns, raw, 0, Seq::empty(), fl, k);
}

proof fn lemma_by_name(
    names: Seq<Seq<char>>,
    s: SchemaModel,
    raw: Seq<Seq<char>>,
    i: int,
    done: Seq<Datum>,
    fl: FloatModel,
    k: int,
    c: int,
)
    requires
        0 <= i,
        done.len() == s.columns.len(),
        0 <= c < done.len(),
        names.no_duplicates(),
        values_by_name(names, s, raw, i, done, fl) is Ok,
    ensures
        ({
            let row = values_by_name(names, s, raw, i, done, fl)->Ok_0;
            &&& row.len() == done.len()
            &&& i <= k < names.len() && k < raw.len() && s.position(names[k]) == Some(c)
                ==> literal_reading(raw[k], s.columns[c].data_type, fl) == Some(row[c])
            &&& (forall|j: int|
                i <= j < names.len() && j < raw.len() ==> s.position(#[trigger] names[j]) != Some(
                    c,
                )) ==> row[c] == done[c]
        }),
    decreases names.len() - i,
{
    if i < names.len() && i < raw.len() {
        let at = s.position(names[i])->0;
        column_place(s.columns, names[i], 0);
        let d = literal_reading(raw[i], s.columns[at].data_type, fl)->0;
        let next = done.update(at, d);
        lemma_by_name(names, s, raw, i + 1, next, fl, k, c);
        assert forall|j: int| i < j < names.len() implies s.position(#[trigger] names[j]) != Some(
            at,
        ) by {
            column_place(s.columns, names[j], 0);
            assert(names[i] != names[j]);
        }
        lemma_by_name(names, s, raw, i + 1, next, fl, i, at);
    }
}

/// A value that is given under a name stands in that column, read as the column's type
/// asks; a column that is not named is null.
pub proof fn named_values_stand_in_their_columns(
    names: Seq<Seq<char>>,
    s: SchemaModel,
    raw: Seq<Seq<char>>,
    fl: FloatModel,
    k: int,
    c: int,
)
    requires
        names.len() > 0,
        names.len() == raw.len(),
        names.no_duplicates(),
        ordered_row(names, s, raw, fl) is Ok,
        0 <= c < s.columns.len(),
    ensures
        ({
            let row = ordered_row(names, s, raw, fl)->Ok_0;
            &&& row.len() == s.columns.len()
            &&& 0 <= k < names.len() && s.position(names[k]) == Some(c) ==> literal_reading(
                raw[k],
                s.columns[c].data_type,
                fl,
            ) == Some(row[c])
            &&& !names.contains(s.columns[c].name) ==> row[c] == Datum::Null
        }),
{
    let done = nulls(s.columns.len() as int);
    lemma_by_name(names, s, raw, 0, done, fl, k, c);
    if !names.contains(s.columns[c].name) {
        assert forall|j: int| 0 <= j < names.len() && j < raw.len() implies s.position(
            #[trigger] names[j],
        ) != Some(c) by {
            column_place(s.columns, names[j], 0);
            assert(names.contains(names[j]));
        }
        assert(done[c] == Datum::Null);
    }
}

proof fn lemma_inserted(
    e: Engine,
    tx: u64,
    s: SchemaModel,
    q: InsertModel,
    key: int,
    i: int,
    done: Seq<(u64, Seq<Datum>)>,
    fl: FloatModel,
    k: int,
)
    requires
        0 <= i <= q.values.len(),
        done.len() == i,
        0 <= k < q.values.len(),
        rows_inserted(e, tx, s, q, key, i, done, fl).result is Ok,
    ensures
        ({
            let rows = rows_inserted(e, tx, s, q, key, i, done, fl).result->Ok_0;
            &&& rows.len() == q.values.len()
            &&& k < i ==> rows[k] == done[k]
            &&& k >= i ==> ordered_row(q.columns, s, q.values[k], fl) == Ok::<Seq<Datum>, Fault>(
                rows[k].1,
            ) && 0 <= key < rows[k].1.len() && rows[k].1[key] is Integer && rows[k].0
                == rows[k].1[key]->Integer_0 as u64
        }),
    decreases q.values.len() - i,
{
    if i < q.values.len() {
        let row = ordered_row(q.columns, s, q.values[i], fl)->Ok_0;
        let row_id = row[key]->Integer_0 as u64;
        let w = crate::execution::changes::wrote(
            e,
            tx,
            s.table_id as u64,
            row_id,
            crate::execution::mvcc_store::Write::Insert {
                table_id: s.table_id as u64,
                row_id,
                data: crate::execution::row_codec::bytes::row_bytes(row),
            },
        );
        let next = done.push((row_id, row));
        lemma_inserted(w.0, tx, s, q, key, i + 1, next, fl, k);
        let rows = rows_inserted(e, tx, s, q, key, i, done, fl).result->Ok_0;
        if k <= i {
            assert(rows[k] == next[k]);
        }
    }
}

/// An insertion enters a row for every list of values, in their order, under the number in
/// its primary key.
pub proof fn an_insertion_enters_every_row(db: Db, q: InsertModel, fl: FloatModel, k: int)
    requires
        insert_staged(db, q, fl).result is Ok,
        0 <= k < q.values.len(),
    ensures
        ({
            let rows = insert_staged(db, q, fl).result->Ok_0;
            &&& rows.len() == q.values.len()
            &&& table_named(db.catalog, q.table) is Some
            &&& ordered_row(q.columns, table_named(db.catalog, q.table)->0, q.values[k], fl)
                == Ok::<Seq<Datum>, Fault>(rows[k].1)
            &&& table_named(db.catalog, q.table)->0.key_position() matches Some(key) && 0 <= key
                < rows[k].1.len() && (rows[k].1[key] matches Datum::Integer(n) && rows[k].0
                == n as u64)
        }),
{
    let s = table_named(db.catalog, q.table)->0;
    lemma_inserted(
        opened(db.engine, s.table_id as u64),
        db.engine.next_tx,
        s,
        q,
        s.key_position()->0,
        0,
        Seq::empty(),
        fl,
        k,
    );
}

// ---- updates and deletions -------------------------------------------------------

/// A stored row is one that a clause is true of; without a clause, any row that can be
/// read.
pub open spec fn is_chosen(r: (u64, Seq<u8>), clause: Option<Expr>, fl: FloatModel) -> bool {
    match (bytes_row(r.1), clause) {
        (Some(row), Some(e)) => keeps(e, row, fl) == Some(true),
        (Some(_), None) => true,
        (None, _) => false,
    }
}

/// The rows that a clause is true of, in their order.
pub open spec fn chosen(
    rows: Seq<(u64, Seq<u8>)>,
    clause: Option<Expr>,
    fl: FloatModel,
) -> Seq<(u64, Seq<u8>)> {
    rows.filter(|r: (u64, Seq<u8>)| is_chosen(r, clause, fl))
}

proof fn lemma_chosen(
    rows: Seq<(u64, Seq<u8>)>,
    i: int,
    clause: Option<Expr>,
    fl: FloatModel,
)
    requires
        0 <= i <= rows.len(),
    ensures
        i == rows.len() ==> chosen(rows.skip(i), clause, fl).len() == 0,
        i < rows.len() ==> chosen(rows.skip(i), clause, fl) == if is_chosen(rows[i], clause, fl) {
            seq![rows[i]] + chosen(rows.skip(i + 1), clause, fl)
        } else {
            chosen(rows.skip(i + 1), clause, fl)
        },
{
    let p = |r: (u64, Seq<u8>)| is_chosen(r, clause, fl);
    reveal(Seq::filter);
    if i < rows.len() {
        let one = seq![rows[i]];
        assert(rows.skip(i) =~= one + rows.skip(i + 1));
        Seq::filter_distributes_over_add(one, rows.skip(i + 1), p);
        assert(one.drop_last() =~= Seq::empty());
        assert(one.drop_last().filter(p) =~= Seq::empty());
        assert(one.filter(p) =~= if p(rows[i]) { one } else { Seq::empty() });
        assert(chosen(rows.skip(i), clause, fl) =~= one.filter(p) + rows.skip(i + 1).filter(p));
    }
}

proof fn lemma_deleted(
    e: Engine,
    tx: u64,
    table_id: u64,
    clause: Option<Expr>,
    rows: Seq<(u64, Seq<u8>)>,
    i: int,
    done: Seq<(u64, Seq<Datum>)>,
    fl: FloatModel,
)
    requires
        0 <= i <= rows.len(),
        rows_deleted(e, tx, table_id, clause, rows, i, done, fl).result is Ok,
    ensures
        ({
            let out = rows_deleted(e, tx, table_id, clause, rows, i, done, fl).result->Ok_0;
            let meant = chosen(rows.skip(i), clause, fl);
            &&& out.len() == done.len() + meant.len()
            &&& forall|k: int| 0 <= k < done.len() ==> out[k] == done[k]
            &&& forall|k: int|
                0 <= k < meant.len() ==> out[done.len() + k].0 == (#[trigger] meant[k]).0
                    && bytes_row(meant[k].1) == Some(out[done.len() + k].1)
        }),
    decreases rows.len() - i,
{
    lemma_chosen(rows, i, clause, fl);
    if i < rows.len() {
        let later = chosen(rows.skip(i + 1), clause, fl);
        let meant = chosen(rows.skip(i), clause, fl);
        if is_chosen(rows[i], clause, fl) {
            let row = bytes_row(rows[i].1)->0;
            let row_id = rows[i].0;
            let w = crate::execution::changes::wrote(
                e,
                tx,
                table_id,
                row_id,
                crate::execution::mvcc_store::Write::Delete { table_id, row_id },
            );
            let next = done.push((row_id, row));
            lemma_deleted(w.0, tx, table_id, clause, rows, i + 1, next, fl);
            let out = rows_deleted(e, tx, table_id, clause, rows, i, done, fl).result->Ok_0;
            assert(out[done.len() as int] == next[done.len() as int]);
            assert forall|k: int| 0 <= k < done.len() implies out[k] == done[k] by {
                assert(out[k] == next[k]);
            }
            assert forall|k: int| 0 <= k < meant.len() implies out[done.len() + k].0 == (
            #[trigger] meant[k]).0 && bytes_row(meant[k].1) == Some(out[done.len() + k].1) by {
                if k > 0 {
                    assert(meant[k] == later[k - 1]);
                    assert(out[next.len() + (k - 1)] == out[done.len() + k]);
                }
            }
        } else {
            lemma_deleted(e, tx, table_id, clause, rows, i + 1, done, fl);
        }
    }
}

/// A deletion removes the rows that its clause is true of, all of them and no others.
pub proof fn a_deletion_removes_what_its_clause_is_true_of(db: Db, q: DeleteModel, fl: FloatModel)
    requires
        delete_staged(db, q, fl).result is Ok,
    ensures
        table_named(db.catalog, q.table) is Some,
        ({
            let s = table_named(db.catalog, q.table)->0;
            let rows = delete_staged(db, q, fl).result->Ok_0;
            let e = opened(db.engine, s.table_id as u64);
            &&& clause_predicate(q.where_clause, s, fl) is Ok
            &&& {
                let meant = chosen(
                    write_candidates(Db { engine: e, ..db }, s, q.where_clause, fl),
                    clause_predicate(q.where_clause, s, fl)->Ok_0,
                    fl,
                );
                &&& rows.len() == meant.len()
                &&& forall|k: int|
                    0 <= k < meant.len() ==> rows[k].0 == (#[trigger] meant[k]).0 && bytes_row(
                        meant[k].1,
                    ) == Some(rows[k].1)
            }
        }),
{
    let s = table_named(db.catalog, q.table)->0;
    let e = opened(db.engine, s.table_id as u64);
    let rows = write_candidates(Db { engine: e, ..db }, s, q.where_clause, fl);
    let clause = clause_predicate(q.where_clause, s, fl)->Ok_0;
    lemma_deleted(
        e,
        db.engine.next_tx,
        s.table_id as u64,
        clause,
        rows,
        0,
        Seq::empty(),
        fl,
    );
    assert(rows.skip(0) =~= rows);
}

proof fn lemma_assigned(
    assignments: Seq<(int, Assigned)>,
    i: int,
    was: Seq<Datum>,
    row: Seq<Datum>,
    fl: FloatModel,
    c: int,
)
    requires
        0 <= i <= assignments.len(),
        0 <= c < row.len(),
        row_assigned(assignments, i, was, row, fl) is Ok,
    ensures
        ({
            let now = row_assigned(assignments, i, was, row, fl)->Ok_0;
            &&& now.len() == row.len()
            &&& (forall|k: int| i <= k < assignments.len() ==> (#[trigger] assignments[k]).0 != c)
                ==> now[c] == row[c]
            &&& forall|k: int|
                i <= k < assignments.len() && (#[trigger] assignments[k]).0 == c && (forall|l: int|
                    k < l < assignments.len() ==> (#[trigger] assignments[l]).0 != c) ==> now[c]
                    == assigned_value(assignments[k].1, was, fl)
        }),
    decreases assignments.len() - i,
{
    if i < assignments.len() {
        let (at, a) = assignments[i];
        let next = row.update(at, assigned_value(a, was, fl));
        lemma_assigned(assignments, i + 1, was, next, fl, c);
    }
}

/// In a changed row, a column holds what was assigned to it, computed from the row as it
/// was before; a column that nothing was assigned to keeps its value. Of several
/// assignments to one column the last counts.
pub proof fn an_update_assigns_from_the_row_as_it_was(
    assignments: Seq<(int, Assigned)>,
    was: Seq<Datum>,
    fl: FloatModel,
    c: int,
    k: int,
)
    requires
        row_assigned(assignments, 0, was, was, fl) is Ok,
        0 <= c < was.len(),
    ensures
        ({
            let now = row_assigned(assignments, 0, was, was, fl)->Ok_0;
            &&& now.len() == was.len()
            &&& (forall|l: int| 0 <= l < assignments.len() ==> (#[trigger] assignments[l]).0 != c)
                ==> now[c] == was[c]
            &&& 0 <= k < assignments.len() && assignments[k].0 == c && (forall|l: int|
                k < l < assignments.len() ==> (#[trigger] assignments[l]).0 != c) ==> now[c]
                == assigned_value(assignments[k].1, was, fl)
        }),
{
    lemma_assigned(assignments, 0, was, was, fl, c);
}

/// The assignments of an update are those of its columns, each to the expression beside it.
pub proof fn assignments_go_to_their_columns(
    s: SchemaModel,
    pairs: Seq<(Seq<char>, Seq<char>)>,
    i: int,
    done: Seq<(int, Assigned)>,
    fl: FloatModel,
    k: int,
)
    requires
        0 <= i <= pairs.len(),
        done.len() == i,
        0 <= k < pairs.len(),
        assignments_read(s, pairs, i, done, fl) is Ok,
    ensures
        ({
            let out = assignments_read(s, pairs, i, done, fl)->Ok_0;
            &&& out.len() == pairs.len()
            &&& k < i ==> out[k] == done[k]
            &&& k >= i ==> s.position(pairs[k].0) == Some(out[k].0) && s.key_position() != Some(
                out[k].0,
            ) && assignment_of(pairs[k].1, s, s.columns[out[k].0].data_type, fl) == Some(out[k].1)
        }),
    decreases pairs.len() - i,
{
    if i < pairs.len() {
        let c = s.position(pairs[i].0)->0;
        let a = assignment_of(pairs[i].1, s, s.columns[c].data_type, fl)->0;
        let next = done.push((c, a));
        assignments_go_to_their_columns(s, pairs, i + 1, next, fl, k);
        if k <= i {
            let out = assignments_read(s, pairs, i, done, fl)->Ok_0;
            assert(out[k] == next[k]);
        }
    }
}

proof fn lemma_updated(
    e: Engine,
    tx: u64,
    table_id: u64,
    clause: Option<Expr>,
    assignments: Seq<(int, Assigned)>,
    rows: Seq<(u64, Seq<u8>)>,
    i: int,
    done: Seq<(u64, Seq<Datum>)>,
    fl: FloatModel,
)
    requires
        0 <= i <= rows.len(),
        rows_updated(e, tx, table_id, clause, assignments, rows, i, done, fl).result is Ok,
    ensures
        ({
            let out = rows_updated(
                e,
                tx,
                table_id,
                clause,
                assignments,
                rows,
                i,
                done,
                fl,
            ).result->Ok_0;
            let meant = chosen(rows.skip(i), clause, fl);
            &&& out.len() == done.len() + meant.len()
            &&& forall|k: int| 0 <= k < done.len() ==> out[k] == done[k]
            &&& forall|k: int|
                0 <= k < meant.len() ==> out[done.len() + k].0 == (#[trigger] meant[k]).0
                    && bytes_row(meant[k].1) is Some && row_assigned(
                    assignments,
                    0,
                    bytes_row(meant[k].1)->0,
                    bytes_row(meant[k].1)->0,
                    fl,
                ) == Ok::<Seq<Datum>, Fault>(out[done.len() + k].1)
        }),
    decreases rows.len() - i,
{
    lemma_chosen(rows, i, clause, fl);
    if i < rows.len() {
        let later = chosen(rows.skip(i + 1), clause, fl);
        let meant = chosen(rows.skip(i), clause, fl);
        if is_chosen(rows[i], clause, fl) {
            let row = bytes_row(rows[i].1)->0;
            let row_id = rows[i].0;
            let l = crate::execution::changes::locked(e, tx, table_id, row_id);
            let now = row_assigned(assignments, 0, row, row, fl)->Ok_0;
            let w = crate::execution::changes::wrote(
                l.0,
                tx,
                table_id,
                row_id,
                crate::execution::mvcc_store::Write::Update {
                    table_id,
                    row_id,
                    data: crate::execution::row_codec::bytes::row_bytes(now),
                },
            );
            let next = done.push((row_id, now));
            lemma_updated(w.0, tx, table_id, clause, assignments, rows, i + 1, next, fl);
            let out = rows_updated(
                e,
                tx,
                table_id,
                clause,
                assignments,
                rows,
                i,
                done,
                fl,
            ).result->Ok_0;
            assert(out[done.len() as int] == next[done.len() as int]);
            assert forall|k: int| 0 <= k < done.len() implies out[k] == done[k] by {
                assert(out[k] == next[k]);
            }
            assert forall|k: int| 0 <= k < meant.len() implies out[done.len() + k].0 == (
            #[trigger] meant[k]).0 && bytes_row(meant[k].1) is Some && row_assigned(
                assignments,
                0,
                bytes_row(meant[k].1)->0,
                bytes_row(meant[k].1)->0,
                fl,
            ) == Ok::<Seq<Datum>, Fault>(out[done.len() + k].1) by {
                if k > 0 {
                    assert(meant[k] == later[k - 1]);
                    assert(out[next.len() + (k - 1)] == out[done.len() + k]);
                }
            }
        } else {
            lemma_updated(e, tx, table_id, clause, assignments, rows, i + 1, done, fl);
        }
    }
}

/// An update changes the rows that its clause is true of, all of them and no others, each
/// by the assignments.
pub proof fn an_update_changes_what_its_clause_is_true_of(db: Db, q: UpdateModel, fl: FloatModel)
    requires
        update_staged(db, q, fl).result is Ok,
    ensures
        table_named(db.catalog, q.table) is Some,
        ({
            let s = table_named(db.catalog, q.table)->0;
            let rows = update_staged(db, q, fl).result->Ok_0;
            let e = opened(db.engine, s.table_id as u64);
            &&& clause_predicate(q.where_clause, s, fl) is Ok
            &&& assignments_read(s, q.assignments, 0, Seq::empty(), fl) is Ok
            &&& {
                let assignments = assignments_read(s, q.assignments, 0, Seq::empty(), fl)->Ok_0;
                let meant = chosen(
                    write_candidates(Db { engine: e, ..db }, s, q.where_clause, fl),
                    clause_predicate(q.where_clause, s, fl)->Ok_0,
                    fl,
                );
                &&& rows.len() == meant.len()
                &&& forall|k: int|
                    0 <= k < meant.len() ==> rows[k].0 == (#[trigger] meant[k]).0 && bytes_row(
                        meant[k].1,
                    ) is Some && row_assigned(
                        assignments,
                        0,
                        bytes_row(meant[k].1)->0,
                        bytes_row(meant[k].1)->0,
                        fl,
                    ) == Ok::<Seq<Datum>, Fault>(rows[k].1)
            }
        }),
{
    let s = table_named(db.catalog, q.table)->0;
    let e = opened(db.engine, s.table_id as u64);
    let rows = write_candidates(Db { engine: e, ..db }, s, q.where_clause, fl);
    let clause = clause_predicate(q.where_clause, s, fl)->Ok_0;
    let assignments = assignments_read(s, q.assignments, 0, Seq::empty(), fl)->Ok_0;
    lemma_updated(
        e,
        db.engine.next_tx,
        s.table_id as u64,
        clause,
        assignments,
        rows,
        0,
        Seq::empty(),
        fl,
    );
    assert(rows.skip(0) =~= rows);
}

/// Without a clause, every row of the table is a candidate for a change.
pub proof fn without_a_clause_every_row_is_meant(db: Db, s: SchemaModel, fl: FloatModel)
    ensures
        write_candidates(db, s, None, fl) == rows_at(
            db.engine.tables,
            s.table_id as u64,
            db.engine.clock,
        ),
        clause_predicate(None, s, fl) == Ok::<Option<Expr>, Fault>(None),
{
}

/// The answer to a change is the number of rows that it changed.
pub proof fn a_change_answers_the_number_of_its_rows(
    db: Db,
    tx: u64,
    schema: SchemaModel,
    rows: Seq<(u64, Seq<Datum>)>,
    indexed: bool,
    fl: FloatModel,
)
    ensures
        settled(db, PendingModel::Rows { tx, schema, rows, indexed }, fl).result == Ok::<
            Seq<Seq<Seq<char>>>,
            Fault,
        >(seq![seq![decimal(rows.len() as int)]]),
{
}

// ---- reading tables --------------------------------------------------------------

proof fn lemma_seen(t: TableModel, ids: Seq<u64>, i: int, snap: u64, k: int)
    requires
        0 <= i <= ids.len(),
        0 <= k < seen_from(t, ids, i, snap).len(),
    ensures
        row_at(t, seen_from(t, ids, i, snap)[k].0, snap) == Some(seen_from(t, ids, i, snap)[k].1),
    decreases ids.len() - i,
{
    if i < ids.len() {
        match row_at(t, ids[i], snap) {
            Some(data) => {
                if k > 0 {
                    lemma_seen(t, ids, i + 1, snap, k - 1);
                }
            },
            None => {
                lemma_seen(t, ids, i + 1, snap, k);
            },
        }
    }
}

/// Every row that a scan at a time yields is stored under its number at that time.
pub proof fn a_scan_holds_only_stored_rows(
    tables: Map<u64, TableModel>,
    table_id: u64,
    snap: u64,
    k: int,
)
    requires
        0 <= k < rows_at(tables, table_id, snap).len(),
    ensures
        ({
            let r = rows_at(tables, table_id, snap)[k];
            stored_at(tables, table_id, r.0, snap) == Some(r.1)
        }),
{
    let t = tables[table_id];
    lemma_seen(t, crate::execution::ids::in_order(t.rows.dom()), 0, snap, k);
}

proof fn lemma_decoded(stored: Seq<(u64, Seq<u8>)>, i: int, row: Seq<Datum>)
    requires
        0 <= i <= stored.len(),
    ensures
        decoded_rows(stored, i).contains(row) <==> exists|k: int|
            i <= k < stored.len() && bytes_row((#[trigger] stored[k]).1) == Some(row),
        (forall|k: int| i <= k < stored.len() ==> bytes_row((#[trigger] stored[k]).1) is Some)
            ==> decoded_rows(stored, i).len() == stored.len() - i,
    decreases stored.len() - i,
{
    if i < stored.len() {
        lemma_decoded(stored, i + 1, row);
        let rest = decoded_rows(stored, i + 1);
        let all = decoded_rows(stored, i);
        if bytes_row(stored[i].1) is Some {
            let first = bytes_row(stored[i].1)->0;
            assert(all == seq![first] + rest);
            if first == row {
                assert(all[0] == row);
            }
            if rest.contains(row) {
                let m = choose|m: int| 0 <= m < rest.len() && rest[m] == row;
                assert(all[m + 1] == row);
            }
            if all.contains(row) && first != row {
                let m = choose|m: int| 0 <= m < all.len() && all[m] == row;
                assert(rest[m - 1] == row);
            }
        }
    }
}

/// Reading a table yields the rows that are stored in it at the time of the last commit,
/// and no others.
pub proof fn a_table_is_read_as_it_is_stored(db: Db, name: Seq<char>, row: Seq<Datum>)
    requires
        table_scan(db, name) is Ok,
    ensures
        table_named(db.catalog, name) is Some,
        ({
            let s = table_named(db.catalog, name)->0;
            let t = table_scan(db, name)->Ok_0;
            &&& t.schema == s
            &&& t.rows.contains(row) <==> exists|id: u64|
                #![trigger stored_at(db.engine.tables, s.table_id as u64, id, db.engine.clock)]
                stored_at(
                    db.engine.tables,
                    s.table_id as u64,
                    id,
                    db.engine.clock,
                ) matches Some(b) && bytes_row(b) == Some(row)
        }),
{
    let s = table_named(db.catalog, name)->0;
    let id = s.table_id as u64;
    let stored = rows_at(db.engine.tables, id, db.engine.clock);
    lemma_decoded(stored, 0, row);
    let t = table_scan(db, name)->Ok_0;
    if t.rows.contains(row) {
        let k = choose|k: int| 0 <= k < stored.len() && bytes_row((#[trigger] stored[k]).1) == Some(
            row,
        );
        a_scan_holds_only_stored_rows(db.engine.tables, id, db.engine.clock, k);
        assert(stored_at(db.engine.tables, id, stored[k].0, db.engine.clock) == Some(stored[k].1));
    }
    if exists|r: u64|
        #![trigger stored_at(db.engine.tables, id, r, db.engine.clock)]
        stored_at(db.engine.tables, id, r, db.engine.clock) matches Some(b) && bytes_row(b) == Some(
            row,
        ) {
        let r = choose|r: u64|
            #![trigger stored_at(db.engine.tables, id, r, db.engine.clock)]
            stored_at(db.engine.tables, id, r, db.engine.clock) matches Some(b) && bytes_row(b)
                == Some(row);
        crate::execution::visibility::a_scan_holds_every_row(
            db.engine.tables,
            id,
            r,
            db.engine.clock,
        );
        let b = stored_at(db.engine.tables, id, r, db.engine.clock)->0;
        let k = choose|k: int| 0 <= k < stored.len() && stored[k] == (r, b);
        assert(bytes_row(stored[k].1) == Some(row));
    }
}

/// Nothing is left of a transaction but that it was aborted: no buffered write, no snapshot
/// and no lock.
pub open spec fn gave_up(e: Engine, tx: u64) -> bool {
    &&& !e.buffered.dom().contains(tx)
    &&& !e.snapshots.dom().contains(tx)
    &&& e.transactions.dom().contains(tx) ==> e.transactions[tx].state == TransactionState::Aborted
    &&& exists|l: Locks| e.locks == #[trigger] released(l, TransactionId(tx))
}

proof fn lemma_gave_up(e: Engine, tx: u64)
    ensures
        gave_up(aborted(e, tx), tx),
{
    assert(aborted(e, tx).locks == released(e.locks, TransactionId(tx)));
}

proof fn lemma_insert_gives_up(
    e: Engine,
    tx: u64,
    s: SchemaModel,
    q: InsertModel,
    k: int,
    i: int,
    done: Seq<(u64, Seq<Datum>)>,
    fl: FloatModel,
)
    ensures
        ({
            let o = rows_inserted(e, tx, s, q, k, i, done, fl);
            o.result is Err ==> gave_up(o.engine, tx)
        }),
    decreases q.values.len() - i,
{
    if 0 <= i < q.values.len() {
        lemma_gave_up(e, tx);
        if let Ok(row) = ordered_row(q.columns, s, q.values[i], fl) {
            if 0 <= k < row.len() {
                if let Datum::Integer(n) = row[k] {
                    let table_id = s.table_id as u64;
                    let row_id = n as u64;
                    let w = wrote(
                        e,
                        tx,
                        table_id,
                        row_id,
                        Write::Insert { table_id, row_id, data: row_bytes(row) },
                    );
                    lemma_gave_up(w.0, tx);
                    lemma_insert_gives_up(w.0, tx, s, q, k, i + 1, done.push((row_id, row)), fl);
                }
            }
        }
    }
}

proof fn lemma_update_gives_up(
    e: Engine,
    tx: u64,
    table_id: u64,
    clause: Option<Expr>,
    assignments: Seq<(int, Assigned)>,
    rows: Seq<(u64, Seq<u8>)>,
    i: int,
    done: Seq<(u64, Seq<Datum>)>,
    fl: FloatModel,
)
    ensures
        ({
            let o = rows_updated(e, tx, table_id, clause, assignments, rows, i, done, fl);
            o.result is Err ==> gave_up(o.engine, tx)
        }),
    decreases rows.len() - i,
{
    if 0 <= i < rows.len() {
        let row_id = rows[i].0;
        lemma_update_gives_up(e, tx, table_id, clause, assignments, rows, i + 1, done, fl);
        if let Some(row) = bytes_row(rows[i].1) {
            let l = locked(e, tx, table_id, row_id);
            lemma_gave_up(l.0, tx);
            if let Ok(now) = row_assigned(assignments, 0, row, row, fl) {
                let w = wrote(
                    l.0,
                    tx,
                    table_id,
                    row_id,
                    Write::Update { table_id, row_id, data: row_bytes(now) },
                );
                lemma_gave_up(w.0, tx);
                lemma_update_gives_up(
                    w.0,
                    tx,
                    table_id,
                    clause,
                    assignments,
                    rows,
                    i + 1,
                    done.push((row_id, now)),
                    fl,
                );
            }
        }
    }
}

proof fn lemma_delete_gives_up(
    e: Engine,
    tx: u64,
    table_id: u64,
    clause: Option<Expr>,
    rows: Seq<(u64, Seq<u8>)>,
    i: int,
    done: Seq<(u64, Seq<Datum>)>,
    fl: FloatModel,
)
    ensures
        ({
            let o = rows_deleted(e, tx, table_id, clause, rows, i, done, fl);
            o.result is Err ==> gave_up(o.engine, tx)
        }),
    decreases rows.len() - i,
{
    if 0 <= i < rows.len() {
        let row_id = rows[i].0;
        lemma_delete_gives_up(e, tx, table_id, clause, rows, i + 1, done, fl);
        if let Some(row) = bytes_row(rows[i].1) {
            let w = wrote(e, tx, table_id, row_id, Write::Delete { table_id, row_id });
            lemma_gave_up(w.0, tx);
            lemma_delete_gives_up(
                w.0,
                tx,
                table_id,
                clause,
                rows,
                i + 1,
                done.push((row_id, row)),
                fl,
            );
        }
    }
}

/// A refused change gives its transaction up, or never opened one.
pub proof fn a_refused_change_gives_up_its_transaction(
    db: Db,
    i: InsertModel,
    u: UpdateModel,
    d: DeleteModel,
    fl: FloatModel,
)
    ensures
        insert_staged(db, i, fl).result is Err ==> insert_staged(db, i, fl).engine == db.engine
            || gave_up(insert_staged(db, i, fl).engine, db.engine.next_tx),
        update_staged(db, u, fl).result is Err ==> update_staged(db, u, fl).engine == db.engine
            || gave_up(update_staged(db, u, fl).engine, db.engine.next_tx),
        delete_staged(db, d, fl).result is Err ==> delete_staged(db, d, fl).engine == db.engine
            || gave_up(delete_staged(db, d, fl).engine, db.engine.next_tx),
{
    let tx = db.engine.next_tx;
    if let Some(s) = table_named(db.catalog, i.table) {
        if let Some(k) = s.key_position() {
            let e = opened(db.engine, s.table_id as u64);
            lemma_insert_gives_up(e, tx, s, i, k, 0, Seq::empty(), fl);
        }
    }
    if let Some(s) = table_named(db.catalog, u.table) {
        let e = opened(db.engine, s.table_id as u64);
        lemma_gave_up(e, tx);
        if let (Ok(assignments), Ok(clause)) = (
            assignments_read(s, u.assignments, 0, Seq::empty(), fl),
            clause_predicate(u.where_clause, s, fl),
        ) {
            lemma_update_gives_up(
                e,
                tx,
                s.table_id as u64,
                clause,
                assignments,
                write_candidates(Db { engine: e, ..db }, s, u.where_clause, fl),
                0,
                Seq::empty(),
                fl,
            );
        }
    }
    if let Some(s) = table_named(db.catalog, d.table) {
        let e = opened(db.engine, s.table_id as u64);
        lemma_gave_up(e, tx);
        if let Ok(clause) = clause_predicate(d.where_clause, s, fl) {
            lemma_delete_gives_up(
                e,
                tx,
                s.table_id as u64,
                clause,
                write_candidates(Db { engine: e, ..db }, s, d.where_clause, fl),
                0,
                Seq::empty(),
                fl,
            );
        }
    }
}

} // verus!
