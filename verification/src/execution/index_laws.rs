//! Reading through an index gives the rows that reading a whole table gives.

use vstd::multiset::Multiset;
use vstd::prelude::*;
use crate::execution::catalog::{
    column_place, distinct_ids, highest_id_bounds, id_from, id_place,
    registering_keeps_ids_distinct, table_from, SchemaModel,
};
use crate::execution::definitions::{
    built_index, column_entries, index_target, new_schema, row_indexed, rows_indexed,
};
use crate::execution::durability::{in_time, lemma_named, lemma_one_with_id};
use crate::execution::executor::{Db, IndexModel};
use crate::execution::ids::in_order;
use crate::execution::mvcc_store::{row_at, seen_from, stored_at, TableModel, TS_INFINITY};
use crate::execution::oltp::rows_at;
use crate::execution::operators::Datum;
use crate::execution::relation::kept_rows;
use crate::execution::row_codec::bytes::{bytes_row, row_bytes, rows_read_back};
use crate::execution::row_codec::literals::value_reading;
use crate::execution::row_codec::predicate::{
    compared, comparison, datum_order, keeps, Comparison, Expr, Tri,
};
use crate::execution::scan::{
    candidate_ids, candidate_rows, decoded_rows, first_mentions, index_place, literal_comparison,
    stored_rows,
};
use crate::execution::secondary_index::{
    a_range_yields_the_rows_in_it, an_entered_row_is_found, by_value, entered,
    entering_keeps_the_order, entry_place, key_order, key_order_is_total, rows_with, variant_rank,
    End,
};
use crate::execution::statements::{settled, PendingModel};
use crate::execution::visibility::{
    a_changed_row_is_read, a_deleted_row_is_gone, a_refused_statement_changes_nothing,
    a_scan_holds_every_row, after_change, all_known, changed, changed_table, ids_differ,
    lemma_changes, lemma_mentioned_once, lemma_new_table_is_empty, lemma_rows_at_differ,
    lemma_stored_once, other_rows_are_left,
};
use crate::float::{is_equal, rank, FloatModel};
use crate::sql::parser::{CreateIndexModel, StatementModel};
use crate::text::text_order_is_total;

verus! {

// ---- stored rows as a bag ---------------------------------------------------------------

/// The row that a stored row holds, where a predicate keeps it.
pub open spec fn match_of(e: Expr, stored: (u64, Seq<u8>), fl: FloatModel) -> Option<Seq<Datum>> {
    match bytes_row(stored.1) {
        Some(row) => if keeps(e, row, fl) == Some(true) {
            Some(row)
        } else {
            None
        },
        None => None,
    }
}

/// The rows that some stored rows hold and a predicate keeps, each as often as it
/// occurs.
pub open spec fn matches_of(e: Expr, stored: Seq<(u64, Seq<u8>)>, fl: FloatModel) -> Multiset<
    Seq<Datum>,
>
    decreases stored.len(),
{
    if stored.len() == 0 {
        Multiset::empty()
    } else {
        let rest = matches_of(e, stored.drop_first(), fl);
        match match_of(e, stored[0], fl) {
            Some(row) => rest.insert(row),
            None => rest,
        }
    }
}

proof fn lemma_kept_as_a_bag(e: Expr, stored: Seq<(u64, Seq<u8>)>, i: int, fl: FloatModel)
    requires
        0 <= i <= stored.len(),
    ensures
        kept_rows(e, decoded_rows(stored, i), fl).to_multiset() == matches_of(
            e,
            stored.skip(i),
            fl,
        ),
    decreases stored.len() - i,
{
    broadcast use vstd::seq_lib::group_to_multiset_ensures;

    let pred = |row: Seq<Datum>| keeps(e, row, fl) == Some(true);
    if i < stored.len() {
        lemma_kept_as_a_bag(e, stored, i + 1, fl);
        assert(stored.skip(i).drop_first() =~= stored.skip(i + 1));
        let rest = decoded_rows(stored, i + 1);
        if let Some(row) = bytes_row(stored[i].1) {
            let one = seq![row];
            Seq::filter_distributes_over_add(one, rest, pred);
            reveal_with_fuel(Seq::filter, 2);
            assert(one.drop_last() =~= Seq::<Seq<Datum>>::empty());
            let kept = one.filter(pred);
            if pred(row) {
                assert(kept =~= one);
                assert(one =~= Seq::<Seq<Datum>>::empty().push(row));
                vstd::seq_lib::lemma_multiset_commutative(kept, rest.filter(pred));
                assert(one.to_multiset() =~= Multiset::<Seq<Datum>>::empty().insert(row));
                assert((kept + rest.filter(pred)).to_multiset() =~= rest.filter(
                    pred,
                ).to_multiset().insert(row));
            } else {
                assert(kept =~= Seq::<Seq<Datum>>::empty());
                assert(kept + rest.filter(pred) =~= rest.filter(pred));
            }
        }
    } else {
        reveal(Seq::filter);
        assert(stored.skip(i) =~= Seq::<(u64, Seq<u8>)>::empty());
        assert(kept_rows(e, decoded_rows(stored, i), fl) =~= Seq::<Seq<Datum>>::empty());
    }
}

proof fn lemma_without_one(e: Expr, stored: Seq<(u64, Seq<u8>)>, k: int, fl: FloatModel)
    requires
        0 <= k < stored.len(),
    ensures
        matches_of(e, stored, fl) == (match match_of(e, stored[k], fl) {
            Some(row) => matches_of(e, stored.remove(k), fl).insert(row),
            None => matches_of(e, stored.remove(k), fl),
        }),
    decreases k,
{
    if k == 0 {
        assert(stored.remove(0) =~= stored.drop_first());
    } else {
        lemma_without_one(e, stored.drop_first(), k - 1, fl);
        let less = stored.remove(k);
        assert(less.drop_first() =~= stored.drop_first().remove(k - 1));
        assert(less[0] == stored[0]);
        assert(stored.drop_first()[k - 1] == stored[k]);
        if let (Some(a), Some(b)) = (match_of(e, stored[0], fl), match_of(e, stored[k], fl)) {
            let m = matches_of(e, stored.drop_first().remove(k - 1), fl);
            assert(m.insert(b).insert(a) =~= m.insert(a).insert(b));
        }
    }
}

/// Whether two lists of stored rows have the same rows that a predicate keeps.
pub open spec fn same_matches(
    e: Expr,
    a: Seq<(u64, Seq<u8>)>,
    b: Seq<(u64, Seq<u8>)>,
    fl: FloatModel,
) -> bool {
    forall|p: (u64, Seq<u8>)|
        match_of(e, p, fl) is Some ==> (#[trigger] a.contains(p) <==> b.contains(p))
}

proof fn lemma_no_matches(e: Expr, b: Seq<(u64, Seq<u8>)>, fl: FloatModel)
    requires
        same_matches(e, Seq::empty(), b, fl),
    ensures
        matches_of(e, b, fl) == Multiset::<Seq<Datum>>::empty(),
    decreases b.len(),
{
    if b.len() > 0 {
        let none = Seq::<(u64, Seq<u8>)>::empty();
        assert(b.contains(b[0]));
        assert(!none.contains(b[0]));
        assert forall|p: (u64, Seq<u8>)| match_of(e, p, fl) is Some implies (#[trigger] none.contains(
            p,
        ) <==> b.drop_first().contains(p)) by {
            if b.drop_first().contains(p) {
                let i = choose|i: int| 0 <= i < b.drop_first().len() && b.drop_first()[i] == p;
                assert(b[i + 1] == p);
            }
            assert(!none.contains(p));
        }
        lemma_no_matches(e, b.drop_first(), fl);
    }
}

proof fn lemma_same_bag(e: Expr, a: Seq<(u64, Seq<u8>)>, b: Seq<(u64, Seq<u8>)>, fl: FloatModel)
    requires
        ids_differ(a),
        ids_differ(b),
        same_matches(e, a, b, fl),
    ensures
        matches_of(e, a, fl) == matches_of(e, b, fl),
    decreases a.len(),
{
    if a.len() == 0 {
        assert(a =~= Seq::empty());
        lemma_no_matches(e, b, fl);
    } else {
        let p = a[0];
        let rest = a.drop_first();
        assert(ids_differ(rest)) by {
            assert forall|i: int, j: int| 0 <= i < j < rest.len() implies (#[trigger] rest[i]).0 != (
            #[trigger] rest[j]).0 by {
                assert(a[i + 1].0 != a[j + 1].0);
            }
        }
        assert forall|q: (u64, Seq<u8>)| #[trigger] rest.contains(q) implies q != p && a.contains(
            q,
        ) by {
            let i = choose|i: int| 0 <= i < rest.len() && rest[i] == q;
            assert(a[i + 1] == q);
            assert(a[0].0 != a[i + 1].0);
        }
        assert forall|q: (u64, Seq<u8>)| a.contains(q) && q != p implies #[trigger] rest.contains(
            q,
        ) by {
            let i = choose|i: int| 0 <= i < a.len() && a[i] == q;
            assert(rest[i - 1] == q);
        }
        assert(a.contains(p));
        if match_of(e, p, fl) is Some {
            assert(b.contains(p));
            let k = choose|k: int| 0 <= k < b.len() && b[k] == p;
            let less = b.remove(k);
            assert forall|i: int| 0 <= i < less.len() implies #[trigger] less[i] == (if i < k {
                b[i]
            } else {
                b[i + 1]
            }) by {}
            assert(ids_differ(less)) by {
                assert forall|i: int, j: int| 0 <= i < j < less.len() implies (
                #[trigger] less[i]).0 != (#[trigger] less[j]).0 by {
                    let x = if i < k { i } else { i + 1 };
                    let y = if j < k { j } else { j + 1 };
                    assert(b[x].0 != b[y].0);
                }
            }
            assert forall|q: (u64, Seq<u8>)| match_of(e, q, fl) is Some implies (
            #[trigger] rest.contains(q) <==> less.contains(q)) by {
                assert(a.contains(q) <==> b.contains(q));
                if less.contains(q) {
                    let i = choose|i: int| 0 <= i < less.len() && less[i] == q;
                    let x = if i < k { i } else { i + 1 };
                    assert(b[x] == q);
                    if x < k {
                        assert(b[x].0 != b[k].0);
                    } else {
                        assert(b[k].0 != b[x].0);
                    }
                }
                if b.contains(q) && q != p {
                    let i = choose|i: int| 0 <= i < b.len() && b[i] == q;
                    let x = if i < k { i } else { i - 1 };
                    assert(less[x] == q);
                }
            }
            lemma_same_bag(e, rest, less, fl);
            lemma_without_one(e, b, k, fl);
        } else {
            assert forall|q: (u64, Seq<u8>)| match_of(e, q, fl) is Some implies (
            #[trigger] rest.contains(q) <==> b.contains(q)) by {
                assert(a.contains(q) <==> b.contains(q));
            }
            lemma_same_bag(e, rest, b, fl);
        }
    }
}

/// Two lists of stored rows, each with its rows once, that have the same rows that a
/// predicate keeps, give the same rows, each as often.
pub proof fn same_matches_give_the_same_rows(
    e: Expr,
    a: Seq<(u64, Seq<u8>)>,
    b: Seq<(u64, Seq<u8>)>,
    fl: FloatModel,
)
    requires
        ids_differ(a),
        ids_differ(b),
        same_matches(e, a, b, fl),
    ensures
        kept_rows(e, decoded_rows(a, 0), fl).to_multiset() == kept_rows(
            e,
            decoded_rows(b, 0),
            fl,
        ).to_multiset(),
{
    lemma_kept_as_a_bag(e, a, 0, fl);
    lemma_kept_as_a_bag(e, b, 0, fl);
    assert(a.skip(0) =~= a);
    assert(b.skip(0) =~= b);
    lemma_same_bag(e, a, b, fl);
}

// ---- what an index covers ---------------------------------------------------------------

/// The place of the column that an index is over.
pub open spec fn column_of(catalog: Seq<SchemaModel>, m: IndexModel) -> Option<int> {
    match id_from(catalog, m.table_id as u32, 0) {
        Some(t) => catalog[t].position(m.column),
        None => None,
    }
}

/// Whether an index has the row under the value that the row has by now.
pub open spec fn covered(db: Db, m: IndexModel, row_id: u64) -> bool {
    match stored_at(db.engine.tables, m.table_id, row_id, db.engine.clock) {
        Some(b) => match (bytes_row(b), column_of(db.catalog, m)) {
            (Some(row), Some(c)) => c < row.len() ==> rows_with(m.entries, row[c]).contains(row_id),
            _ => true,
        },
        None => true,
    }
}

/// No two indexes are over the same column.
pub open spec fn indexes_differ(indexes: Seq<IndexModel>) -> bool {
    forall|i: int, j: int|
        0 <= i < j < indexes.len() ==> (#[trigger] indexes[i]).table_id != (
        #[trigger] indexes[j]).table_id || indexes[i].column != indexes[j].column
}

/// The indexes are in order: each is over a column that there is, and keeps its
/// values in order.
pub open spec fn indexes_in_order(catalog: Seq<SchemaModel>, indexes: Seq<IndexModel>) -> bool {
    &&& indexes_differ(indexes)
    &&& forall|i: int|
        0 <= i < indexes.len() ==> by_value((#[trigger] indexes[i]).entries)
            && indexes[i].table_id <= u32::MAX && column_of(catalog, indexes[i]) is Some
}

/// The indexes of a database are complete: each has every row under the value that
/// the row has by now.
pub open spec fn indexes_complete(db: Db) -> bool {
    &&& distinct_ids(db.catalog)
    &&& indexes_in_order(db.catalog, db.indexes)
    &&& forall|i: int, row_id: u64|
        0 <= i < db.indexes.len() ==> #[trigger] covered(db, db.indexes[i], row_id)
}

/// Whether an index has all that another has, and more.
pub open spec fn grew(old_index: IndexModel, new_index: IndexModel) -> bool {
    &&& new_index.table_id == old_index.table_id
    &&& new_index.column == old_index.column
    &&& by_value(new_index.entries)
    &&& forall|d: Datum, id: u64|
        rows_with(old_index.entries, d).contains(id) ==> #[trigger] rows_with(
            new_index.entries,
            d,
        ).contains(id)
}

proof fn lemma_entered_grows(m: IndexModel, d: Datum, row_id: u64)
    requires
        by_value(m.entries),
    ensures
        grew(m, IndexModel { entries: entered(m.entries, d, row_id), ..m }),
        rows_with(entered(m.entries, d, row_id), d).contains(row_id),
{
    entering_keeps_the_order(m.entries, d, row_id);
    an_entered_row_is_found(m.entries, d, row_id, d);
    let before = rows_with(m.entries, d);
    assert(before.push(row_id)[before.len() as int] == row_id);
    assert forall|v: Datum, id: u64| rows_with(m.entries, v).contains(id) implies #[trigger] rows_with(
        entered(m.entries, d, row_id),
        v,
    ).contains(id) by {
        an_entered_row_is_found(m.entries, d, row_id, v);
        if v == d {
            let k = choose|k: int| 0 <= k < before.len() && before[k] == id;
            assert(before.push(row_id)[k] == id);
        }
    }
}

proof fn lemma_index_place(indexes: Seq<IndexModel>, table_id: u64, column: Seq<char>, from: int)
    requires
        0 <= from,
    ensures
        match index_place(indexes, table_id, column, from) {
            Some(i) => from <= i < indexes.len() && indexes[i].table_id == table_id
                && indexes[i].column == column,
            None => forall|i: int|
                from <= i < indexes.len() ==> (#[trigger] indexes[i]).table_id != table_id
                    || indexes[i].column != column,
        },
    decreases indexes.len() - from,
{
    if from < indexes.len() {
        lemma_index_place(indexes, table_id, column, from + 1);
    }
}

proof fn lemma_place_of(indexes: Seq<IndexModel>, i: int)
    requires
        indexes_differ(indexes),
        0 <= i < indexes.len(),
    ensures
        index_place(indexes, indexes[i].table_id, indexes[i].column, 0) == Some(i),
{
    lemma_index_place(indexes, indexes[i].table_id, indexes[i].column, 0);
    let j = index_place(indexes, indexes[i].table_id, indexes[i].column, 0)->0;
    if j < i {
        assert(indexes[j].table_id != indexes[i].table_id || indexes[j].column
            != indexes[i].column);
    }
    if i < j {
        assert(indexes[i].table_id != indexes[j].table_id || indexes[i].column
            != indexes[j].column);
    }
}

/// All values of the indexes are in order.
spec fn values_in_order(indexes: Seq<IndexModel>) -> bool {
    forall|i: int| 0 <= i < indexes.len() ==> by_value((#[trigger] indexes[i]).entries)
}

/// Each index grew.
spec fn all_grew(before: Seq<IndexModel>, after: Seq<IndexModel>) -> bool {
    &&& after.len() == before.len()
    &&& forall|i: int| 0 <= i < before.len() ==> grew(#[trigger] before[i], after[i])
}

proof fn lemma_all_grew(a: Seq<IndexModel>, b: Seq<IndexModel>, c: Seq<IndexModel>)
    requires
        all_grew(a, b),
        all_grew(b, c),
    ensures
        all_grew(a, c),
{
    assert forall|i: int| 0 <= i < a.len() implies grew(#[trigger] a[i], c[i]) by {
        assert(grew(a[i], b[i]));
        assert(grew(b[i], c[i]));
        assert forall|d: Datum, id: u64| rows_with(a[i].entries, d).contains(id) implies
            #[trigger] rows_with(c[i].entries, d).contains(id) by {
            assert(rows_with(b[i].entries, d).contains(id));
        }
    }
}

proof fn lemma_still_differ(before: Seq<IndexModel>, after: Seq<IndexModel>)
    requires
        indexes_differ(before),
        all_grew(before, after),
    ensures
        indexes_differ(after),
        values_in_order(after),
{
    assert forall|i: int, j: int| 0 <= i < j < after.len() implies (#[trigger] after[i]).table_id
        != (#[trigger] after[j]).table_id || after[i].column != after[j].column by {
        assert(grew(before[i], after[i]));
        assert(grew(before[j], after[j]));
    }
    assert forall|i: int| 0 <= i < after.len() implies by_value((#[trigger] after[i]).entries) by {
        assert(grew(before[i], after[i]));
    }
}

/// Whether an index has a row under the value that it has in the index's column, of
/// the columns from the `c`-th on.
spec fn has_row(m: IndexModel, s: SchemaModel, row_id: u64, row: Seq<Datum>, c: int) -> bool {
    forall|k: int|
        #![trigger s.columns[k]]
        c <= k < s.columns.len() && k < row.len() && m.table_id == s.table_id as u64 && m.column
            == s.columns[k].name ==> rows_with(m.entries, row[k]).contains(row_id)
}

proof fn lemma_row_indexed(
    indexes: Seq<IndexModel>,
    s: SchemaModel,
    row_id: u64,
    row: Seq<Datum>,
    c: int,
)
    requires
        indexes_differ(indexes),
        values_in_order(indexes),
        0 <= c,
    ensures
        all_grew(indexes, row_indexed(indexes, s, row_id, row, c)),
        forall|i: int|
            0 <= i < indexes.len() ==> has_row(
                #[trigger] row_indexed(indexes, s, row_id, row, c)[i],
                s,
                row_id,
                row,
                c,
            ),
    decreases s.columns.len() - c,
{
    let after = row_indexed(indexes, s, row_id, row, c);
    if c < s.columns.len() {
        let place = index_place(indexes, s.table_id as u64, s.columns[c].name, 0);
        lemma_index_place(indexes, s.table_id as u64, s.columns[c].name, 0);
        let next = match place {
            Some(i) => if c < row.len() {
                indexes.update(
                    i,
                    IndexModel {
                        entries: entered(indexes[i].entries, row[c], row_id),
                        ..indexes[i]
                    },
                )
            } else {
                indexes
            },
            None => indexes,
        };
        if let Some(i) = place {
            if c < row.len() {
                lemma_entered_grows(indexes[i], row[c], row_id);
            }
        }
        assert(all_grew(indexes, next)) by {
            assert forall|i: int| 0 <= i < indexes.len() implies grew(
                #[trigger] indexes[i],
                next[i],
            ) by {
                assert(by_value(indexes[i].entries));
            }
        }
        lemma_still_differ(indexes, next);
        lemma_row_indexed(next, s, row_id, row, c + 1);
        lemma_all_grew(indexes, next, after);
        assert forall|i: int| 0 <= i < indexes.len() implies has_row(
            #[trigger] after[i],
            s,
            row_id,
            row,
            c,
        ) by {
            assert(has_row(row_indexed(next, s, row_id, row, c + 1)[i], s, row_id, row, c + 1));
            assert(grew(indexes[i], after[i]));
            assert(grew(next[i], after[i]));
            assert forall|k: int|
                #![trigger s.columns[k]]
                c <= k < s.columns.len() && k < row.len() && after[i].table_id == s.table_id as u64
                    && after[i].column == s.columns[k].name implies rows_with(
                after[i].entries,
                row[k],
            ).contains(row_id) by {
                if k == c {
                    lemma_place_of(indexes, i);
                    assert(place == Some(i));
                    assert(rows_with(next[i].entries, row[c]).contains(row_id));
                }
            }
        }
    } else {
        assert forall|i: int| 0 <= i < indexes.len() implies grew(#[trigger] indexes[i], after[i]) by {
            assert(by_value(indexes[i].entries));
        }
    }
}

proof fn lemma_rows_indexed(
    indexes: Seq<IndexModel>,
    s: SchemaModel,
    changed: Seq<(u64, Seq<Datum>)>,
    n: int,
)
    requires
        indexes_differ(indexes),
        values_in_order(indexes),
        0 <= n <= changed.len(),
    ensures
        all_grew(indexes, rows_indexed(indexes, s, changed, n)),
        forall|i: int, k: int|
            #![trigger rows_indexed(indexes, s, changed, n)[i], changed[k]]
            0 <= i < indexes.len() && 0 <= k < n ==> has_row(
                rows_indexed(indexes, s, changed, n)[i],
                s,
                changed[k].0,
                changed[k].1,
                0,
            ),
    decreases n,
{
    let after = rows_indexed(indexes, s, changed, n);
    if n > 0 {
        let before = rows_indexed(indexes, s, changed, n - 1);
        lemma_rows_indexed(indexes, s, changed, n - 1);
        lemma_still_differ(indexes, before);
        lemma_row_indexed(before, s, changed[n - 1].0, changed[n - 1].1, 0);
        lemma_all_grew(indexes, before, after);
        assert forall|i: int, k: int|
            #![trigger after[i], changed[k]]
            0 <= i < indexes.len() && 0 <= k < n implies has_row(
            after[i],
            s,
            changed[k].0,
            changed[k].1,
            0,
        ) by {
            if k < n - 1 {
                assert(has_row(before[i], s, changed[k].0, changed[k].1, 0));
                assert(grew(before[i], after[i]));
            }
        }
    } else {
        assert forall|i: int| 0 <= i < indexes.len() implies grew(#[trigger] indexes[i], after[i]) by {
            assert(by_value(indexes[i].entries));
        }
    }
}

// ---- indexes stay complete --------------------------------------------------------------

proof fn lemma_last_mention(rows: Seq<(u64, Seq<Datum>)>, id: u64, n: int) -> (k: int)
    requires
        0 <= n <= rows.len(),
        exists|j: int| 0 <= j < n && (#[trigger] rows[j]).0 == id,
    ensures
        0 <= k < n,
        rows[k].0 == id,
        forall|j: int| k < j < n ==> (#[trigger] rows[j]).0 != id,
    decreases n,
{
    if rows[n - 1].0 == id {
        n - 1
    } else {
        lemma_last_mention(rows, id, n - 1)
    }
}

/// Whether a statement changes only rows whose bytes can be read back.
pub open spec fn is_ordinary(db: Db, s: StatementModel, fl: FloatModel) -> bool {
    match changed(db, s, fl) {
        Some((_, rows)) => forall|k: int|
            0 <= k < rows.len() ==> row_bytes((#[trigger] rows[k]).1).len() <= u64::MAX,
        None => true,
    }
}

proof fn lemma_named_place(db: Db, s: StatementModel, fl: FloatModel)
    requires
        changed(db, s, fl) is Some,
        distinct_ids(db.catalog),
    ensures
        ({
            let schema = (changed(db, s, fl)->0).0;
            match id_from(db.catalog, schema.table_id, 0) {
                Some(t) => db.catalog[t] == schema,
                None => false,
            }
        }),
{
    lemma_changes(db, s, fl);
    lemma_named(db.catalog, changed_table(s), 0);
    lemma_one_with_id(db.catalog, table_from(db.catalog, changed_table(s), 0)->0);
}

proof fn lemma_indexed_after(db: Db, s: StatementModel, fl: FloatModel)
    requires
        changed(db, s, fl) is Some,
    ensures
        ({
            let (schema, rows) = changed(db, s, fl)->0;
            after_change(db, s, fl).indexes == (if s is Delete {
                db.indexes
            } else {
                rows_indexed(db.indexes, schema, rows, rows.len() as int)
            })
        }),
{
}

proof fn lemma_changes_stay_complete(db: Db, s: StatementModel, fl: FloatModel)
    requires
        indexes_complete(db),
        in_time(db.engine),
        db.engine.clock < TS_INFINITY - 1,
        all_known(db.engine.tables, db.engine.clock),
        changed(db, s, fl) is Some,
        is_ordinary(db, s, fl),
    ensures
        indexes_complete(after_change(db, s, fl)),
{
    let (schema, rows) = changed(db, s, fl)->0;
    let n = rows.len() as int;
    let d = after_change(db, s, fl);
    let id = schema.table_id as u64;
    lemma_changes(db, s, fl);
    lemma_named_place(db, s, fl);
    lemma_indexed_after(db, s, fl);
    lemma_rows_indexed(db.indexes, schema, rows, n);
    if s is Delete {
        assert forall|i: int| 0 <= i < db.indexes.len() implies grew(
            #[trigger] db.indexes[i],
            d.indexes[i],
        ) by {
            assert(by_value(db.indexes[i].entries));
        }
    }
    assert(all_grew(db.indexes, d.indexes));
    lemma_still_differ(db.indexes, d.indexes);
    assert(indexes_in_order(d.catalog, d.indexes)) by {
        assert forall|i: int| 0 <= i < d.indexes.len() implies by_value(
            (#[trigger] d.indexes[i]).entries,
        ) && d.indexes[i].table_id <= u32::MAX && column_of(d.catalog, d.indexes[i]) is Some by {
            assert(grew(db.indexes[i], d.indexes[i]));
        }
    }
    assert forall|i: int, row_id: u64| 0 <= i < d.indexes.len() implies #[trigger] covered(
        d,
        d.indexes[i],
        row_id,
    ) by {
        let m = db.indexes[i];
        let after = d.indexes[i];
        assert(grew(m, after));
        assert(covered(db, m, row_id));
        if m.table_id == id && exists|j: int| 0 <= j < n && (#[trigger] rows[j]).0 == row_id {
            let k = lemma_last_mention(rows, row_id, n);
            if let StatementModel::Delete(q) = s {
                a_deleted_row_is_gone(db, q, fl, k);
            } else {
                a_changed_row_is_read(db, s, fl, k);
                rows_read_back(rows[k].1);
                assert(has_row(after, schema, row_id, rows[k].1, 0));
                let c = column_of(d.catalog, after)->0;
                column_place(schema.columns, after.column, 0);
                assert(schema.columns[c].name == after.column);
            }
        } else {
            other_rows_are_left(db, s, fl, m.table_id, row_id);
        }
    }
}

proof fn lemma_column_entries(
    stored: Seq<(u64, Seq<u8>)>,
    c: int,
    i: int,
    done: Seq<(Datum, Seq<u64>)>,
    table_id: u64,
    column: Seq<char>,
)
    requires
        by_value(done),
        0 <= i,
        0 <= c,
    ensures
        grew(
            IndexModel { table_id, column, entries: done },
            IndexModel { table_id, column, entries: column_entries(stored, c, i, done) },
        ),
        forall|k: int|
            i <= k < stored.len() ==> match bytes_row((#[trigger] stored[k]).1) {
                Some(row) => c < row.len() ==> rows_with(
                    column_entries(stored, c, i, done),
                    row[c],
                ).contains(stored[k].0),
                None => true,
            },
    decreases stored.len() - i,
{
    let m = IndexModel { table_id, column, entries: done };
    let after = column_entries(stored, c, i, done);
    if i < stored.len() {
        let next = match bytes_row(stored[i].1) {
            Some(row) => if c < row.len() {
                entered(done, row[c], stored[i].0)
            } else {
                done
            },
            None => done,
        };
        if let Some(row) = bytes_row(stored[i].1) {
            if c < row.len() {
                lemma_entered_grows(m, row[c], stored[i].0);
            }
        }
        lemma_column_entries(stored, c, i + 1, next, table_id, column);
        assert(after == column_entries(stored, c, i + 1, next));
        let mid = IndexModel { table_id, column, entries: next };
        assert(grew(m, mid));
        assert forall|v: Datum, id: u64| rows_with(done, v).contains(id) implies #[trigger] rows_with(
            after,
            v,
        ).contains(id) by {
            assert(rows_with(mid.entries, v).contains(id));
        }
    }
}

proof fn lemma_built_index_is_complete(db: Db, q: CreateIndexModel, fl: FloatModel)
    requires
        indexes_complete(db),
        index_target(db.catalog, q) is Ok,
    ensures
        ({
            let table_id = index_target(db.catalog, q)->Ok_0;
            indexes_complete(settled(db, PendingModel::Index { table_id, column: q.column }, fl).db)
        }),
{
    let table_id = index_target(db.catalog, q)->Ok_0;
    let d = settled(db, PendingModel::Index { table_id, column: q.column }, fl).db;
    lemma_named(db.catalog, q.table, 0);
    let t = table_from(db.catalog, q.table, 0)->0;
    lemma_one_with_id(db.catalog, t);
    let m = built_index(db, table_id, q.column)->Ok_0;
    let c = db.catalog[t].position(q.column)->0;
    column_place(db.catalog[t].columns, q.column, 0);
    let stored = rows_at(db.engine.tables, table_id, db.engine.clock);
    lemma_column_entries(stored, c, 0, Seq::empty(), table_id, q.column);
    lemma_index_place(db.indexes, table_id, q.column, 0);
    let place = index_place(db.indexes, table_id, q.column, 0);
    let at = match place {
        Some(i) => i,
        None => db.indexes.len() as int,
    };
    assert(d.indexes[at] == m);
    assert forall|i: int| 0 <= i < d.indexes.len() && i != at implies #[trigger] d.indexes[i]
        == db.indexes[i] by {}
    assert(indexes_differ(d.indexes)) by {
        assert forall|i: int, j: int| 0 <= i < j < d.indexes.len() implies (
        #[trigger] d.indexes[i]).table_id != (#[trigger] d.indexes[j]).table_id
            || d.indexes[i].column != d.indexes[j].column by {
            if place is Some {
                assert(db.indexes[i].table_id != db.indexes[j].table_id || db.indexes[i].column
                    != db.indexes[j].column);
            } else {
                assert(d.indexes[i] == db.indexes[i]);
            }
        }
    }
    assert(indexes_in_order(d.catalog, d.indexes));
    assert forall|i: int, row_id: u64| 0 <= i < d.indexes.len() implies #[trigger] covered(
        d,
        d.indexes[i],
        row_id,
    ) by {
        if i == at {
            a_scan_holds_every_row(db.engine.tables, table_id, row_id, db.engine.clock);
            if let Some(b) = stored_at(db.engine.tables, table_id, row_id, db.engine.clock) {
                let k = choose|k: int| 0 <= k < stored.len() && stored[k] == (row_id, b);
                assert(stored[k].1 == b);
            }
        } else {
            assert(covered(db, db.indexes[i], row_id));
        }
    }
}

proof fn lemma_new_table_is_complete(db: Db, s: SchemaModel, fl: FloatModel)
    requires
        indexes_complete(db),
        id_from(db.catalog, s.table_id, 0) is None,
    ensures
        indexes_complete(settled(db, PendingModel::Table(s), fl).db),
{
    let d = settled(db, PendingModel::Table(s), fl).db;
    registering_keeps_ids_distinct(db.catalog, s);
    assert(d.catalog == db.catalog.push(s));
    assert forall|i: int| 0 <= i < d.indexes.len() implies column_of(
        d.catalog,
        #[trigger] d.indexes[i],
    ) == column_of(db.catalog, db.indexes[i]) by {
        let m = db.indexes[i];
        assert(column_of(db.catalog, m) is Some);
        id_place(db.catalog, m.table_id as u32, 0);
        let t = id_from(db.catalog, m.table_id as u32, 0)->0;
        assert(d.catalog[t] == db.catalog[t]);
        lemma_one_with_id(d.catalog, t);
    }
    assert forall|i: int, row_id: u64| 0 <= i < d.indexes.len() implies #[trigger] covered(
        d,
        d.indexes[i],
        row_id,
    ) by {
        assert(covered(db, db.indexes[i], row_id));
        lemma_new_table_is_empty(
            db.engine.tables,
            s.table_id as u64,
            db.indexes[i].table_id,
            db.engine.clock,
        );
    }
}

/// Indexes stay complete: where they have every row under the value that it has,
/// they do once a statement has been run.
pub proof fn indexes_stay_complete(db: Db, s: StatementModel, fl: FloatModel)
    requires
        indexes_complete(db),
        in_time(db.engine),
        db.engine.clock < TS_INFINITY - 1,
        all_known(db.engine.tables, db.engine.clock),
        is_ordinary(db, s, fl),
    ensures
        indexes_complete(after_change(db, s, fl)),
{
    if changed(db, s, fl) is Some {
        lemma_changes_stay_complete(db, s, fl);
    } else {
        match s {
            StatementModel::CreateTable(q) => {
                if let Ok(schema) = new_schema(db.catalog, q) {
                    highest_id_bounds(db.catalog, db.catalog.len() as int);
                    id_place(db.catalog, schema.table_id, 0);
                    lemma_new_table_is_complete(db, schema, fl);
                }
            },
            StatementModel::CreateIndex(q) => {
                if index_target(db.catalog, q) is Ok {
                    lemma_built_index_is_complete(db, q, fl);
                }
            },
            _ => {
                a_refused_statement_changes_nothing(db, s, fl);
                let d = after_change(db, s, fl);
                assert(d.indexes == db.indexes && d.catalog == db.catalog);
                assert forall|i: int, row_id: u64| 0 <= i < d.indexes.len() implies
                    #[trigger] covered(d, d.indexes[i], row_id) by {
                    assert(covered(db, db.indexes[i], row_id));
                    if !(s is Analyze) {
                        assert(stored_at(
                            d.engine.tables,
                            db.indexes[i].table_id,
                            row_id,
                            d.engine.clock,
                        ) == stored_at(
                            db.engine.tables,
                            db.indexes[i].table_id,
                            row_id,
                            db.engine.clock,
                        ));
                    }
                }
            },
        }
    }
}

// ---- what an index yields ---------------------------------------------------------------

proof fn lemma_orders_agree(v: Datum, d: Datum, fl: FloatModel)
    requires
        variant_rank(v) == variant_rank(d),
        !(d matches Datum::Float(x) && is_equal(x, 0)),
    ensures
        datum_order(v, d, fl) matches Some(o) ==> key_order(v, d) == o,
{
    match (v, d) {
        (Datum::Text(x), Datum::Text(y)) => {
            text_order_is_total(x, y);
        },
        (Datum::Float(x), Datum::Float(y)) => {
            assert(rank(0) == 0);
        },
        _ => {},
    }
}

proof fn lemma_entry_of(entries: Seq<(Datum, Seq<u64>)>, v: Datum, row_id: u64) -> (k: int)
    requires
        rows_with(entries, v).contains(row_id),
    ensures
        0 <= k < entries.len(),
        entries[k].0 == v,
        entries[k].1.contains(row_id),
{
    entry_place(entries, v, 0)
}

/// An index that serves misses no match: it yields every row whose value satisfies the
/// comparison.
pub proof fn an_index_misses_no_match(
    db: Db,
    s: SchemaModel,
    left: Seq<char>,
    op: Seq<char>,
    right: Seq<char>,
    fl: FloatModel,
    row_id: u64,
)
    requires
        indexes_complete(db),
        db.catalog.contains(s),
        match (
            candidate_ids(db, s, left, op, right, fl),
            comparison(op),
            s.position(left),
            stored_at(db.engine.tables, s.table_id as u64, row_id, db.engine.clock),
        ) {
            (Some(_), Some(o), Some(c), Some(b)) => match bytes_row(b) {
                Some(row) => {
                    let d = value_reading(right, s.columns[c].data_type, fl);
                    &&& c < row.len()
                    &&& compared(row[c], o, d, fl) == Some(Tri::True)
                },
                None => false,
            },
            _ => false,
        },
    ensures
        candidate_ids(db, s, left, op, right, fl)->0.contains(row_id),
{
    let t = choose|t: int| 0 <= t < db.catalog.len() && db.catalog[t] == s;
    lemma_one_with_id(db.catalog, t);
    lemma_index_place(db.indexes, s.table_id as u64, left, 0);
    let i = index_place(db.indexes, s.table_id as u64, left, 0)->0;
    let m = db.indexes[i];
    let c = s.position(left)->0;
    let d = value_reading(right, s.columns[c].data_type, fl);
    let o = comparison(op)->0;
    let b = stored_at(db.engine.tables, s.table_id as u64, row_id, db.engine.clock)->0;
    let row = bytes_row(b)->0;
    column_place(s.columns, left, 0);
    assert(covered(db, m, row_id));
    assert(rows_with(m.entries, row[c]).contains(row_id));
    let k = lemma_entry_of(m.entries, row[c], row_id);
    lemma_orders_agree(row[c], d, fl);
    key_order_is_total(row[c], d);
    reveal_strlit("=");
    reveal_strlit("<");
    reveal_strlit("<=");
    reveal_strlit(">");
    reveal_strlit(">=");
    reveal_strlit("!=");
    reveal_strlit("<>");
    assert("="@[0] == '=' && "<"@[0] == '<' && ">"@[0] == '>');
    assert("<="@.len() == 2 && ">="@.len() == 2 && "!="@.len() == 2 && "<>"@.len() == 2);
    assert("<="@[0] == '<' && ">="@[0] == '>' && "!="@[0] == '!' && "<>"@[1] == '>');
    assert("<="@[1] == '=');
    let ids = candidate_ids(db, s, left, op, right, fl)->0;
    if op == ">"@ {
        assert(o == Comparison::Greater);
        a_range_yields_the_rows_in_it(m.entries, End::Excluded(d), End::Unbounded, 0, row_id);
        assert(ids.contains(row_id));
    } else if op == ">="@ {
        assert(o == Comparison::AtLeast);
        a_range_yields_the_rows_in_it(m.entries, End::Included(d), End::Unbounded, 0, row_id);
        assert(ids.contains(row_id));
    } else if op == "<"@ {
        assert(o == Comparison::Less);
        a_range_yields_the_rows_in_it(m.entries, End::Unbounded, End::Excluded(d), 0, row_id);
        assert(ids.contains(row_id));
    } else if op == "<="@ {
        assert(o == Comparison::AtMost);
        a_range_yields_the_rows_in_it(m.entries, End::Unbounded, End::Included(d), 0, row_id);
        assert(ids.contains(row_id));
    } else {
        assert(o == Comparison::Equal);
        assert(row[c] == d);
        assert(ids.contains(row_id));
    }
}

pub(crate) proof fn lemma_mentioned(ids: Seq<u64>, n: int, id: u64)
    requires
        0 <= n <= ids.len(),
        ids.take(n).contains(id),
    ensures
        first_mentions(ids, n).contains(id),
    decreases n,
{
    let k = choose|k: int| 0 <= k < n && ids.take(n)[k] == id;
    let before = first_mentions(ids, n - 1);
    if k < n - 1 {
        assert(ids.take(n - 1)[k] == id);
        lemma_mentioned(ids, n - 1, id);
        let j = choose|j: int| 0 <= j < before.len() && before[j] == id;
        assert(before.push(ids[n - 1])[j] == id);
    } else {
        assert(before.push(ids[n - 1])[before.len() as int] == id);
    }
}

pub(crate) proof fn lemma_stored_rows(db: Db, table_id: u64, ids: Seq<u64>, i: int, p: (u64, Seq<u8>))
    requires
        0 <= i <= ids.len(),
    ensures
        stored_rows(db, table_id, ids, i).contains(p) <==> ids.skip(i).contains(p.0) && stored_at(
            db.engine.tables,
            table_id,
            p.0,
            db.engine.clock,
        ) == Some(p.1),
    decreases ids.len() - i,
{
    let all = stored_rows(db, table_id, ids, i);
    if i < ids.len() {
        lemma_stored_rows(db, table_id, ids, i + 1, p);
        let rest = stored_rows(db, table_id, ids, i + 1);
        let more = all.len() - rest.len();
        assert forall|j: int| more <= j < all.len() implies #[trigger] all[j] == rest[j - more] by {}
        if rest.contains(p) {
            let j = choose|j: int| 0 <= j < rest.len() && rest[j] == p;
            assert(all[j + more] == p);
        }
        if all.contains(p) {
            let j = choose|j: int| 0 <= j < all.len() && all[j] == p;
            if j >= more {
                assert(rest[j - more] == p);
            }
        }
        let now = ids.skip(i);
        let later = ids.skip(i + 1);
        if later.contains(p.0) {
            let j = choose|j: int| 0 <= j < later.len() && later[j] == p.0;
            assert(now[j + 1] == p.0);
        }
        if now.contains(p.0) {
            let j = choose|j: int| 0 <= j < now.len() && now[j] == p.0;
            if j > 0 {
                assert(later[j - 1] == p.0);
            } else {
                assert(ids[i] == p.0);
            }
        }
        assert(ids.skip(i)[0] == ids[i]);
        if ids[i] == p.0 && more == 1 {
            assert(all[0] == (ids[i], stored_at(
                db.engine.tables,
                table_id,
                p.0,
                db.engine.clock,
            )->0));
        }
    }
}

pub(crate) proof fn lemma_seen_is_stored(t: TableModel, ids: Seq<u64>, i: int, snap: u64, p: (u64, Seq<u8>))
    requires
        0 <= i,
        seen_from(t, ids, i, snap).contains(p),
    ensures
        row_at(t, p.0, snap) == Some(p.1),
    decreases ids.len() - i,
{
    if i < ids.len() {
        let rest = seen_from(t, ids, i + 1, snap);
        let all = seen_from(t, ids, i, snap);
        let j = choose|j: int| 0 <= j < all.len() && all[j] == p;
        let more = all.len() - rest.len();
        if j >= more {
            assert(rest[j - more] == p);
            lemma_seen_is_stored(t, ids, i + 1, snap, p);
        }
    }
}

/// The row that a stored row holds by now.
pub open spec fn current_row(db: Db, table_id: u64, row_id: u64) -> Option<Seq<Datum>> {
    match stored_at(db.engine.tables, table_id, row_id, db.engine.clock) {
        Some(b) => bytes_row(b),
        None => None,
    }
}

pub(crate) proof fn lemma_candidates_match(
    db: Db,
    s: SchemaModel,
    left: Seq<char>,
    op: Seq<char>,
    right: Seq<char>,
    e: Expr,
    fl: FloatModel,
)
    requires
        indexes_complete(db),
        db.catalog.contains(s),
        candidate_ids(db, s, left, op, right, fl) is Some,
        literal_comparison(s, left, op, right, fl) == Some(e),
    ensures
        ({
            let ids = candidate_ids(db, s, left, op, right, fl)->0;
            let id = s.table_id as u64;
            let once = first_mentions(ids, ids.len() as int);
            let a = stored_rows(db, id, once, 0);
            let b = rows_at(db.engine.tables, id, db.engine.clock);
            ids_differ(a) && ids_differ(b) && same_matches(e, a, b, fl)
        }),
{
    let ids = candidate_ids(db, s, left, op, right, fl)->0;
    let id = s.table_id as u64;
    let once = first_mentions(ids, ids.len() as int);
    let a = stored_rows(db, id, once, 0);
    let b = rows_at(db.engine.tables, id, db.engine.clock);
    lemma_mentioned_once(ids, ids.len() as int);
    lemma_stored_once(db, id, once, 0);
    lemma_rows_at_differ(db.engine.tables, id, db.engine.clock);
    assert forall|p: (u64, Seq<u8>)| match_of(e, p, fl) is Some implies (#[trigger] a.contains(p)
        <==> b.contains(p)) by {
        lemma_stored_rows(db, id, once, 0, p);
        assert(once.skip(0) =~= once);
        if a.contains(p) {
            a_scan_holds_every_row(db.engine.tables, id, p.0, db.engine.clock);
        }
        if b.contains(p) {
            let t = db.engine.tables[id];
            lemma_seen_is_stored(t, in_order(t.rows.dom()), 0, db.engine.clock, p);
            assert(current_row(db, id, p.0) is Some);
            an_index_misses_no_match(db, s, left, op, right, fl, p.0);
            assert(ids.take(ids.len() as int) =~= ids);
            lemma_mentioned(ids, ids.len() as int, p.0);
        }
    }
}

/// An index changes no answer: narrowing a table by a comparison through an index
/// gives the rows that keeping those of the whole table that satisfy it gives, each as
/// often.
pub proof fn an_index_changes_no_answer(
    db: Db,
    s: SchemaModel,
    left: Seq<char>,
    op: Seq<char>,
    right: Seq<char>,
    e: Expr,
    fl: FloatModel,
)
    requires
        indexes_complete(db),
        db.catalog.contains(s),
        candidate_ids(db, s, left, op, right, fl) is Some,
        literal_comparison(s, left, op, right, fl) == Some(e),
    ensures
        match candidate_rows(db, s, left, op, right, fl) {
            Some(found) => found.to_multiset() == kept_rows(
                e,
                decoded_rows(rows_at(db.engine.tables, s.table_id as u64, db.engine.clock), 0),
                fl,
            ).to_multiset(),
            None => false,
        },
{
    let ids = candidate_ids(db, s, left, op, right, fl)->0;
    let id = s.table_id as u64;
    let once = first_mentions(ids, ids.len() as int);
    lemma_candidates_match(db, s, left, op, right, e, fl);
    same_matches_give_the_same_rows(
        e,
        stored_rows(db, id, once, 0),
        rows_at(db.engine.tables, id, db.engine.clock),
        fl,
    );
}

} // verus!
