//! Looking up rows by their primary key or through an index gives the rows that reading
//! the whole table gives.

use vstd::prelude::*;
use crate::compute::simd_ops::sorted_floats;
use crate::execution::catalog::{distinct_ids, key_place, table_named, SchemaModel};
use crate::execution::changes::{
    assignments_read, clause_predicate, insertions_are_buffered, key_asked, locked, opened,
    removals_are_buffered, replacements_are_buffered, row_assigned, rows_updated, write_candidates,
    wrote,
};
use crate::execution::definitions::new_schema;
use crate::execution::durability::{in_time, lemma_named};
use crate::execution::executor::{new_db, Db};
use crate::execution::ids::in_order;
use crate::execution::index_laws::{
    an_index_changes_no_answer, indexes_complete, indexes_stay_complete, is_ordinary,
    lemma_candidates_match, lemma_mentioned, lemma_seen_is_stored, lemma_stored_rows, match_of,
    same_matches, same_matches_give_the_same_rows,
};
use crate::execution::key_laws::{
    is_keyed, lemma_current_is_keyed, rows_keyed, rows_stay_keyed,
};
use crate::execution::learned_retention::Retention;
use crate::execution::mvcc_store::{
    all_written, exact_ids, id_key, ids_in_range, inserted, row_at, swept_store, target,
    with_table, written, TableModel, Write, EXACT_BELOW, TS_INFINITY,
};
use crate::execution::oltp::{after_sweeps, horizon, rows_at, Engine};
use crate::execution::operators::Datum;
use crate::execution::query::shortcut;
use crate::execution::relation::kept_rows;
use crate::execution::row_codec::assignment::Assigned;
use crate::execution::row_codec::bytes::{bytes_row, row_bytes};
use crate::execution::row_codec::literals::value_reading;
use crate::execution::row_codec::predicate::{
    comparison, keeps, predicate_of, satisfied, widened, Comparison, Expr, Operand,
};
use crate::execution::row_codec::predicate_laws::three_tokens_are_one_comparison;
use crate::execution::row_codec::tokens::tokens_of;
use crate::execution::scan::{
    candidate_ids, candidate_rows, decoded_rows, first_mentions, key_range, key_rows,
    literal_comparison, rows_of_ids, stored_rows, table_scan, LARGEST_FLOAT, SMALLEST_FLOAT,
};
use crate::execution::statements::started;
use crate::execution::visibility::{
    a_scan_holds_every_row, after_change, all_known, changed, changed_table, changes_of,
    lemma_changes, lemma_mentioned_once, lemma_rows_at_differ, lemma_stored_once,
};
use crate::float::{int_order, is_at_most, is_less, not_a_number, rank, FloatModel, FloatOp, F64};
use crate::index::dynamic_pgm::{
    flushed, keys_in_range, merging_keeps_the_keys, no_nan, range_yields_the_keys_in_it,
    sorted_keys, sorting_keeps_the_keys, BufferedIndex,
};
use crate::optimizer::cost_model::ONE;
use crate::optimizer::planner::SplitModel;
use crate::sql::parser::{StatementModel, UpdateModel};

verus! {

/// The float of a count.
pub open spec fn float_of(n: u64, fl: FloatModel) -> u64 {
    (fl.gives)(FloatOp::OfCount, n, 0)
}

/// Whether whole numbers up to `EXACT_BELOW` are turned into floats and back without
/// loss, keep their order, and can be counted up and down; and greater ones are turned
/// into floats that are no less.
pub open spec fn counts_exactly(fl: FloatModel) -> bool {
    &&& forall|n: u64|
        n <= EXACT_BELOW ==> !not_a_number(#[trigger] float_of(n, fl)) && (fl.gives)(
            FloatOp::OfInteger,
            n,
            0,
        ) == float_of(n, fl) && (fl.gives)(FloatOp::ToCount, float_of(n, fl), 0) == n
            && rank(SMALLEST_FLOAT) <= rank(float_of(n, fl)) <= rank(LARGEST_FLOAT)
    &&& forall|m: u64, n: u64|
        m < n <= EXACT_BELOW ==> rank(#[trigger] float_of(m, fl)) < rank(
            #[trigger] float_of(n, fl),
        )
    &&& forall|m: u64, n: u64|
        m + 1 == n && n <= EXACT_BELOW ==> (fl.gives)(
            FloatOp::Plus,
            #[trigger] float_of(m, fl),
            ONE,
        ) == #[trigger] float_of(n, fl) && (fl.gives)(FloatOp::Minus, float_of(n, fl), ONE)
            == float_of(m, fl)
    &&& forall|n: u64|
        n > EXACT_BELOW ==> !not_a_number(#[trigger] float_of(n, fl)) && rank(
            float_of(EXACT_BELOW, fl),
        ) <= rank(float_of(n, fl))
    &&& !not_a_number((fl.gives)(FloatOp::Minus, float_of(0, fl), ONE))
    &&& rank((fl.gives)(FloatOp::Minus, float_of(0, fl), ONE)) < rank(float_of(0, fl))
}

/// Whether a list of keys is made of the floats of row ids.
pub open spec fn are_ids(keys: Seq<F64>, fl: FloatModel) -> bool {
    forall|i: int|
        0 <= i < keys.len() ==> exists|n: u64|
            #[trigger] keys[i] == #[trigger] id_key(n, fl)
}

/// Whether the index of a table has the id of each of its rows.
pub open spec fn ids_indexed(t: TableModel, fl: FloatModel) -> bool {
    match t.index {
        Some(x) => {
            &&& sorted_floats(x.keys)
            &&& no_nan(x.buffer)
            &&& are_ids(x.keys + x.buffer, fl)
            &&& forall|id: u64| #[trigger]
                t.rows.dom().contains(id) ==> (x.keys + x.buffer).contains(id_key(id, fl))
        },
        None => forall|id: u64| !(#[trigger] t.rows.dom().contains(id)),
    }
}

proof fn lemma_range_asked(
    s: SchemaModel,
    k: int,
    left: Seq<char>,
    op: Seq<char>,
    right: Seq<char>,
    n: u64,
    r: u64,
    fl: FloatModel,
)
    requires
        counts_exactly(fl),
        s.key_position() == Some(k),
        s.position(left) == Some(k),
        s.position(right) is None,
        n < EXACT_BELOW,
        value_reading(right, s.columns[k].data_type, fl) == Datum::Integer(n as i64),
        r < EXACT_BELOW,
        comparison(op) is Some,
        comparison(op) != Some(Comparison::NotEqual),
    ensures
        match key_range(s, left, op, right, fl) {
            Some((min, max)) => {
                &&& !not_a_number(min)
                &&& is_at_most(min, float_of(r, fl)) && is_at_most(float_of(r, fl), max)
                    <==> satisfied(comparison(op)->0, int_order(r as int, n as int))
            },
            None => false,
        },
{
    reveal_strlit("=");
    reveal_strlit("<");
    reveal_strlit("<=");
    reveal_strlit(">");
    reveal_strlit(">=");
    reveal_strlit("!=");
    reveal_strlit("<>");
    assert("="@[0] == '=' && "<"@[0] == '<' && ">"@[0] == '>');
    assert("<="@.len() == 2 && ">="@.len() == 2 && "!="@.len() == 2 && "<>"@.len() == 2);
    assert("<="@[0] == '<' && ">="@[0] == '>' && "!="@[0] == '!' && "<>"@[1] == '>');
    assert("<="@[1] == '=');
    assert((n as i64) as u64 == n);
    let x = widened(n as i64, fl);
    assert(x == float_of(n, fl));
    let up = (n + 1) as u64;
    assert((fl.gives)(FloatOp::Plus, float_of(n, fl), ONE) == float_of(up, fl));
    assert(!not_a_number(float_of(up, fl)) && !not_a_number(float_of(r, fl)));
    assert(!not_a_number(LARGEST_FLOAT) && !not_a_number(SMALLEST_FLOAT));
    assert(rank(float_of(r, fl)) <= rank(LARGEST_FLOAT));
    assert(rank(SMALLEST_FLOAT) <= rank(float_of(r, fl)));
    if n > 0 {
        let down = (n - 1) as u64;
        assert((fl.gives)(FloatOp::Minus, float_of(n, fl), ONE) == float_of(down, fl));
        assert(!not_a_number(float_of(down, fl)));
        if r < down {
            assert(rank(float_of(r, fl)) < rank(float_of(down, fl)));
        } else if r > down {
            assert(rank(float_of(down, fl)) < rank(float_of(r, fl)));
        }
    } else if r > 0 {
        assert(rank(float_of(0, fl)) < rank(float_of(r, fl)));
    }
    if r < n {
        assert(rank(float_of(r, fl)) < rank(float_of(n, fl)));
    } else if r > n {
        assert(rank(float_of(n, fl)) < rank(float_of(r, fl)));
    }
    if r < up {
        assert(rank(float_of(r, fl)) < rank(float_of(up, fl)));
    } else if r > up {
        assert(rank(float_of(up, fl)) < rank(float_of(r, fl)));
    }
}

proof fn lemma_mentions_come_from(ids: Seq<u64>, n: int, id: u64)
    requires
        0 <= n <= ids.len(),
        first_mentions(ids, n).contains(id),
    ensures
        ids.contains(id),
    decreases n,
{
    if n > 0 {
        let before = first_mentions(ids, n - 1);
        let all = first_mentions(ids, n);
        let k = choose|k: int| 0 <= k < all.len() && all[k] == id;
        if k < before.len() {
            assert(before[k] == id);
            lemma_mentions_come_from(ids, n - 1, id);
        } else {
            assert(ids[n - 1] == id);
        }
    }
}

/// The ids that the index of a table yields for a range are those of its keys in it.
proof fn lemma_ids_found(t: TableModel, min: u64, max: u64, fl: FloatModel, r: u64)
    requires
        counts_exactly(fl),
        ids_indexed(t, fl),
        t.index is Some,
        exact_ids(t.index, fl),
        !not_a_number(min),
    ensures
        ids_in_range(t.index, min, max, fl).contains(r) ==> r < EXACT_BELOW && is_at_most(
            min,
            float_of(r, fl),
        ) && is_at_most(float_of(r, fl), max),
        t.rows.dom().contains(r) && is_at_most(min, float_of(r, fl)) && is_at_most(
            float_of(r, fl),
            max,
        ) ==> ids_in_range(t.index, min, max, fl).contains(r),
{
    let x = t.index->0;
    let found = keys_in_range(x.keys, x.buffer, min, max);
    let ids = ids_in_range(t.index, min, max, fl);
    if ids.contains(r) {
        let j = choose|j: int| 0 <= j < ids.len() && ids[j] == r;
        let key = found[j];
        assert(found.contains(key));
        range_yields_the_keys_in_it(x.keys, x.buffer, min, max, key);
        lemma_in_both(x.keys, x.buffer, key);
        let n = lemma_is_id(x.keys + x.buffer, key, fl);
        lemma_exact_id(x, n, fl);
        assert(key.bits == float_of(n, fl));
        assert(r == n);
    }
    if t.rows.dom().contains(r) && is_at_most(min, float_of(r, fl)) && is_at_most(
        float_of(r, fl),
        max,
    ) {
        let key = id_key(r, fl);
        lemma_in_both(x.keys, x.buffer, key);
        range_yields_the_keys_in_it(x.keys, x.buffer, min, max, key);
        let j = choose|j: int| 0 <= j < found.len() && found[j] == key;
        assert(key.bits == float_of(r, fl));
        assert(ids[j] == r);
    }
}

proof fn lemma_is_id(keys: Seq<F64>, key: F64, fl: FloatModel) -> (n: u64)
    requires
        are_ids(keys, fl),
        keys.contains(key),
    ensures
        key == id_key(n, fl),
{
    let i = choose|i: int| 0 <= i < keys.len() && keys[i] == key;
    choose|n: u64| keys[i] == #[trigger] id_key(n, fl)
}

proof fn lemma_exact_id(x: BufferedIndex, n: u64, fl: FloatModel)
    requires
        counts_exactly(fl),
        exact_ids(Some(x), fl),
        (x.keys + x.buffer).contains(id_key(n, fl)),
    ensures
        n < EXACT_BELOW,
{
    let key = id_key(n, fl);
    lemma_in_both(x.keys, x.buffer, key);
    if x.keys.contains(key) {
        let i = choose|i: int| 0 <= i < x.keys.len() && x.keys[i] == key;
        assert(is_less(x.keys[i].bits, float_of(EXACT_BELOW, fl)));
    } else {
        let i = choose|i: int| 0 <= i < x.buffer.len() && x.buffer[i] == key;
        assert(is_less(x.buffer[i].bits, float_of(EXACT_BELOW, fl)));
    }
    assert(key.bits == float_of(n, fl));
}

proof fn lemma_in_both(a: Seq<F64>, b: Seq<F64>, key: F64)
    ensures
        (a + b).contains(key) <==> a.contains(key) || b.contains(key),
{
    let both = a + b;
    if both.contains(key) {
        let i = choose|i: int| 0 <= i < both.len() && both[i] == key;
        if i < a.len() {
            assert(a[i] == key);
        } else {
            assert(b[i - a.len()] == key);
        }
    }
    if a.contains(key) {
        let i = choose|i: int| 0 <= i < a.len() && a[i] == key;
        assert(both[i] == key);
    }
    if b.contains(key) {
        let i = choose|i: int| 0 <= i < b.len() && b[i] == key;
        assert(both[a.len() + i] == key);
    }
}

proof fn lemma_keyed_value(s: SchemaModel, k: int, r: u64, row: Seq<Datum>)
    requires
        s.key_position() == Some(k),
        is_keyed(s, r, row),
        r < EXACT_BELOW,
    ensures
        k < row.len(),
        row[k] == Datum::Integer(r as i64),
{
    let m = row[k]->Integer_0;
    assert(m < 0 ==> (m as u64) >= 0x8000_0000_0000_0000) by (bit_vector);
    assert(m >= 0 ==> (m as u64) as i64 == m) by (bit_vector);
}

proof fn lemma_all_kept(rows: Seq<Seq<Datum>>, e: Expr, fl: FloatModel)
    requires
        forall|j: int| 0 <= j < rows.len() ==> keeps(e, #[trigger] rows[j], fl) == Some(true),
    ensures
        kept_rows(e, rows, fl) == rows,
    decreases rows.len(),
{
    reveal(Seq::filter);
    if rows.len() > 0 {
        let rest = rows.drop_last();
        assert forall|j: int| 0 <= j < rest.len() implies keeps(e, #[trigger] rest[j], fl) == Some(
            true,
        ) by {
            assert(rest[j] == rows[j]);
        }
        lemma_all_kept(rest, e, fl);
        assert(keeps(e, rows[rows.len() - 1], fl) == Some(true));
        assert(rest.push(rows.last()) =~= rows);
    } else {
        assert(rows =~= Seq::<Seq<Datum>>::empty());
    }
}

proof fn lemma_decoded_kept(stored: Seq<(u64, Seq<u8>)>, i: int, e: Expr, fl: FloatModel)
    requires
        0 <= i,
        forall|x: int|
            0 <= x < stored.len() ==> match bytes_row((#[trigger] stored[x]).1) {
                Some(row) => keeps(e, row, fl) == Some(true),
                None => true,
            },
    ensures
        forall|j: int|
            0 <= j < decoded_rows(stored, i).len() ==> keeps(
                e,
                #[trigger] decoded_rows(stored, i)[j],
                fl,
            ) == Some(true),
    decreases stored.len() - i,
{
    if i < stored.len() {
        lemma_decoded_kept(stored, i + 1, e, fl);
        let rest = decoded_rows(stored, i + 1);
        let all = decoded_rows(stored, i);
        if let Some(row) = bytes_row(stored[i].1) {
            assert forall|j: int| 0 <= j < all.len() implies keeps(e, #[trigger] all[j], fl) == Some(
                true,
            ) by {
                if j > 0 {
                    assert(all[j] == rest[j - 1]);
                }
            }
        }
    }
}

proof fn lemma_found_by_key(
    db: Db,
    s: SchemaModel,
    k: int,
    left: Seq<char>,
    op: Seq<char>,
    right: Seq<char>,
    n: u64,
    fl: FloatModel,
)
    requires
        counts_exactly(fl),
        rows_keyed(db),
        all_known(db.engine.tables, db.engine.clock),
        db.engine.clock < TS_INFINITY,
        db.catalog.contains(s),
        s.key_position() == Some(k),
        s.position(left) == Some(k),
        s.position(right) is None,
        n < EXACT_BELOW,
        value_reading(right, s.columns[k].data_type, fl) == Datum::Integer(n as i64),
        comparison(op) is Some,
        comparison(op) != Some(Comparison::NotEqual),
        db.engine.tables.dom().contains(s.table_id as u64) ==> ids_indexed(
            db.engine.tables[s.table_id as u64],
            fl,
        ),
    ensures
        match key_rows(db, s, left, op, right, fl) {
            Some(found) => found.to_multiset() == kept_rows(
                Expr::Comparison(
                    k,
                    comparison(op)->0,
                    Operand::Literal(Datum::Integer(n as i64)),
                ),
                decoded_rows(rows_at(db.engine.tables, s.table_id as u64, db.engine.clock), 0),
                fl,
            ).to_multiset(),
            None => db.engine.tables.dom().contains(s.table_id as u64) && !exact_ids(
                db.engine.tables[s.table_id as u64].index,
                fl,
            ),
        },
{
    let id = s.table_id as u64;
    let o = comparison(op)->0;
    let e = Expr::Comparison(k, o, Operand::Literal(Datum::Integer(n as i64)));
    key_place(s, 0);
    lemma_range_asked(s, k, left, op, right, n, 0, fl);
    let (min, max) = key_range(s, left, op, right, fl)->0;
    let all = rows_at(db.engine.tables, id, db.engine.clock);
    if !db.engine.tables.dom().contains(id) {
        assert(all == Seq::<(u64, Seq<u8>)>::empty());
        reveal(Seq::filter);
        assert(kept_rows(e, decoded_rows(all, 0), fl) =~= Seq::<Seq<Datum>>::empty());
    } else if exact_ids(db.engine.tables[id].index, fl) {
        let t = db.engine.tables[id];
        let ids = ids_in_range(t.index, min, max, fl);
        let once = first_mentions(ids, ids.len() as int);
        let a = stored_rows(db, id, once, 0);
        lemma_mentioned_once(ids, ids.len() as int);
        lemma_stored_once(db, id, once, 0);
        lemma_rows_at_differ(db.engine.tables, id, db.engine.clock);
        assert(once.skip(0) =~= once);
        assert(ids.take(ids.len() as int) =~= ids);
        assert forall|x: int| 0 <= x < a.len() implies match bytes_row((#[trigger] a[x]).1) {
            Some(row) => keeps(e, row, fl) == Some(true),
            None => true,
        } by {
            let p = a[x];
            assert(a.contains(p));
            lemma_stored_rows(db, id, once, 0, p);
            lemma_mentions_come_from(ids, ids.len() as int, p.0);
            lemma_current_is_keyed(db, s, p);
            if t.index is Some {
                lemma_ids_found(t, min, max, fl, p.0);
                lemma_range_asked(s, k, left, op, right, n, p.0, fl);
                if let Some(row) = bytes_row(p.1) {
                    lemma_keyed_value(s, k, p.0, row);
                }
            }
        }
        lemma_decoded_kept(a, 0, e, fl);
        lemma_all_kept(decoded_rows(a, 0), e, fl);
        assert forall|p: (u64, Seq<u8>)| match_of(e, p, fl) is Some implies (#[trigger] a.contains(
            p,
        ) <==> all.contains(p)) by {
            lemma_stored_rows(db, id, once, 0, p);
            if a.contains(p) {
                a_scan_holds_every_row(db.engine.tables, id, p.0, db.engine.clock);
            }
            if all.contains(p) {
                lemma_seen_is_stored(t, in_order(t.rows.dom()), 0, db.engine.clock, p);
                lemma_current_is_keyed(db, s, p);
                assert(t.rows.dom().contains(p.0));
                assert(t.index is Some);
                lemma_exact_id(t.index->0, p.0, fl);
                lemma_keyed_value(s, k, p.0, bytes_row(p.1)->0);
                lemma_range_asked(s, k, left, op, right, n, p.0, fl);
                lemma_ids_found(t, min, max, fl, p.0);
                lemma_mentioned(ids, ids.len() as int, p.0);
            }
        }
        same_matches_give_the_same_rows(e, a, all, fl);
        assert(rows_of_ids(db, id, ids) == decoded_rows(a, 0));
    }
}

/// A lookup by the primary key changes no answer: where the index over row ids serves,
/// it gives the rows that keeping those of the whole table that satisfy the comparison
/// gives, each as often.
pub proof fn a_key_lookup_changes_no_answer(
    db: Db,
    s: SchemaModel,
    left: Seq<char>,
    op: Seq<char>,
    right: Seq<char>,
    fl: FloatModel,
)
    requires
        counts_exactly(fl),
        rows_keyed(db),
        all_known(db.engine.tables, db.engine.clock),
        db.engine.clock < TS_INFINITY,
        db.catalog.contains(s),
        db.engine.tables.dom().contains(s.table_id as u64) ==> ids_indexed(
            db.engine.tables[s.table_id as u64],
            fl,
        ),
    ensures
        key_rows(db, s, left, op, right, fl) matches Some(found) ==> match literal_comparison(
            s,
            left,
            op,
            right,
            fl,
        ) {
            Some(e) => found.to_multiset() == kept_rows(
                e,
                decoded_rows(rows_at(db.engine.tables, s.table_id as u64, db.engine.clock), 0),
                fl,
            ).to_multiset(),
            None => false,
        },
{
    if key_rows(db, s, left, op, right, fl) is Some {
        let k = s.key_position()->0;
        key_place(s, 0);
        let m = value_reading(right, s.columns[k].data_type, fl)->Integer_0;
        let n = m as u64;
        assert(n as i64 == m);
        lemma_operators(op);
        lemma_found_by_key(db, s, k, left, op, right, n, fl);
    }
}

proof fn lemma_operators(op: Seq<char>)
    ensures
        op == "="@ || op == ">"@ || op == ">="@ || op == "<"@ || op == "<="@ ==> comparison(op) is Some
            && comparison(op) != Some(Comparison::NotEqual),
{
    reveal_strlit("=");
    reveal_strlit("<");
    reveal_strlit("<=");
    reveal_strlit(">");
    reveal_strlit(">=");
    reveal_strlit("!=");
    reveal_strlit("<>");
    assert("="@[0] == '=' && "<"@[0] == '<' && ">"@[0] == '>');
    assert("<="@.len() == 2 && ">="@.len() == 2 && "!="@.len() == 2 && "<>"@.len() == 2);
    assert("<="@[0] == '<' && ">="@[0] == '>' && "!="@[0] == '!' && "<>"@[1] == '>');
    assert("<="@[1] == '=');
}

// ---- narrowing a table ------------------------------------------------------------------

/// Whether a database is as its statements leave it: each row's id is its primary key,
/// the index over row ids of each table has every id, and every other index has every
/// row.
pub open spec fn lookups_complete(db: Db, fl: FloatModel) -> bool {
    &&& rows_keyed(db)
    &&& indexes_complete(db)
    &&& all_known(db.engine.tables, db.engine.clock)
    &&& db.engine.clock < TS_INFINITY
    &&& forall|id: u64| #[trigger]
        db.engine.tables.dom().contains(id) ==> ids_indexed(db.engine.tables[id], fl)
}

/// A shortcut changes no answer: a table that is narrowed by a filter through one of
/// its indexes has the rows that keeping those of the whole table that satisfy the
/// filter gives, each as often.
pub proof fn a_shortcut_changes_no_answer(
    db: Db,
    name: Seq<char>,
    predicate: Seq<char>,
    split: Option<SplitModel>,
    e: Expr,
    fl: FloatModel,
)
    requires
        counts_exactly(fl),
        lookups_complete(db, fl),
        split matches Some(t) ==> tokens_of(predicate) == seq![t.0, t.1, t.2],
        table_named(db.catalog, name) matches Some(s) && predicate_of(predicate, s, fl) == Some(e),
    ensures
        match (shortcut(db, name, predicate, split, fl), table_scan(db, name)) {
            (Ok(Some(r)), Ok(whole)) => r.schema == whole.schema && r.rows.to_multiset()
                == kept_rows(e, whole.rows, fl).to_multiset(),
            (Ok(None), Ok(_)) => true,
            _ => false,
        },
{
    let s = table_named(db.catalog, name)->0;
    lemma_named(db.catalog, name, 0);
    assert(db.catalog.contains(s));
    let t = tokens_of(predicate);
    if t.len() == 3 {
        three_tokens_are_one_comparison(predicate, s, fl);
        a_key_lookup_changes_no_answer(db, s, t[0], t[1], t[2], fl);
        if candidate_rows(db, s, t[0], t[1], t[2], fl) is Some {
            an_index_changes_no_answer(db, s, t[0], t[1], t[2], e, fl);
        }
    }
}

/// A change that looks for its rows by their primary key or through an index finds those
/// that it would find in the whole table.
pub proof fn a_shortcut_misses_no_row_to_change(
    db: Db,
    s: SchemaModel,
    clause: Seq<char>,
    e: Expr,
    fl: FloatModel,
)
    requires
        lookups_complete(db, fl),
        db.catalog.contains(s),
        predicate_of(clause, s, fl) == Some(e),
    ensures
        same_matches(
            e,
            write_candidates(db, s, Some(clause), fl),
            rows_at(db.engine.tables, s.table_id as u64, db.engine.clock),
            fl,
        ),
{
    let id = s.table_id as u64;
    let t = tokens_of(clause);
    let all = rows_at(db.engine.tables, id, db.engine.clock);
    if t.len() == 3 {
        three_tokens_are_one_comparison(clause, s, fl);
        if let Some(row_id) = key_asked(s, t, fl) {
            let k = s.key_position()->0;
            key_place(s, 0);
            let n = value_reading(t[2], s.columns[k].data_type, fl)->Integer_0;
            assert(e == Expr::Comparison(k, Comparison::Equal, Operand::Literal(Datum::Integer(n))));
            let a = write_candidates(db, s, Some(clause), fl);
            assert forall|p: (u64, Seq<u8>)| match_of(e, p, fl) is Some implies (
            #[trigger] a.contains(p) <==> all.contains(p)) by {
                if a.contains(p) {
                    a_scan_holds_every_row(db.engine.tables, id, p.0, db.engine.clock);
                }
                if all.contains(p) {
                    let table = db.engine.tables[id];
                    lemma_seen_is_stored(
                        table,
                        in_order(table.rows.dom()),
                        0,
                        db.engine.clock,
                        p,
                    );
                    lemma_current_is_keyed(db, s, p);
                    assert(p.0 == row_id);
                    assert(a[0] == p);
                }
            }
        } else if candidate_ids(db, s, t[0], t[1], t[2], fl) is Some {
            lemma_candidates_match(db, s, t[0], t[1], t[2], e, fl);
        }
    }
}

// ---- indexes of ids ---------------------------------------------------------------------

/// Whether an index is in order and its keys are ids.
spec fn holds_ids(x: BufferedIndex, fl: FloatModel) -> bool {
    &&& sorted_floats(x.keys)
    &&& no_nan(x.buffer)
    &&& are_ids(x.keys + x.buffer, fl)
}

proof fn lemma_flushed_holds(x: BufferedIndex, fl: FloatModel)
    requires
        holds_ids(x, fl),
    ensures
        holds_ids(flushed(x, fl), fl),
        forall|key: F64| #[trigger]
            (flushed(x, fl).keys + flushed(x, fl).buffer).contains(key) <==> (x.keys
                + x.buffer).contains(key),
{
    broadcast use vstd::seq_lib::group_to_multiset_ensures;

    let y = flushed(x, fl);
    let before = x.keys + x.buffer;
    let after = y.keys + y.buffer;
    if x.buffer.len() > 0 {
        sorting_keeps_the_keys(x.buffer);
        merging_keeps_the_keys(x.keys, sorted_keys(x.buffer));
        assert(after =~= y.keys);
        vstd::seq_lib::lemma_multiset_commutative(x.keys, x.buffer);
        assert(after.to_multiset() =~= before.to_multiset());
        assert forall|key: F64| #[trigger] after.contains(key) <==> before.contains(key) by {
            assert(after.to_multiset().count(key) == before.to_multiset().count(key));
        }
        assert forall|i: int| 0 <= i < after.len() implies exists|n: u64|
            #[trigger] after[i] == #[trigger] id_key(n, fl) by {
            assert(after.contains(after[i]));
            let n = lemma_is_id(before, after[i], fl);
            assert(after[i] == id_key(n, fl));
        }
    }
}

/// A table whose index has the id of each row still has it once a row is inserted, be
/// its id new to the table or not.
pub proof fn an_inserted_id_is_indexed(
    t: TableModel,
    row_id: u64,
    ts: u64,
    data: Seq<u8>,
    fl: FloatModel,
)
    requires
        counts_exactly(fl),
        ids_indexed(t, fl),
    ensures
        ids_indexed(inserted(t, row_id, ts, data, fl), fl),
{
    let after = inserted(t, row_id, ts, data, fl);
    let key = id_key(row_id, fl);
    let z = after.index->0;
    assert(!not_a_number(float_of(row_id, fl)));
    match t.index {
        Some(x) => {
            let waiting = BufferedIndex { buffer: x.buffer.push(key), ..x };
            let both = waiting.keys + waiting.buffer;
            assert(both =~= (x.keys + x.buffer).push(key));
            assert(holds_ids(waiting, fl)) by {
                assert forall|i: int| 0 <= i < waiting.buffer.len() implies !not_a_number(
                    (#[trigger] waiting.buffer[i]).bits,
                ) by {
                    if i < x.buffer.len() {
                        assert(waiting.buffer[i] == x.buffer[i]);
                    }
                }
                assert forall|i: int| 0 <= i < both.len() implies exists|n: u64|
                    #[trigger] both[i] == #[trigger] id_key(n, fl) by {
                    if i < (x.keys + x.buffer).len() {
                        assert(both[i] == (x.keys + x.buffer)[i]);
                    } else {
                        assert(both[i] == id_key(row_id, fl));
                    }
                }
            }
            lemma_flushed_holds(waiting, fl);
            assert(holds_ids(z, fl));
            assert forall|k: F64| (x.keys + x.buffer).contains(k) || k == key implies (z.keys
                + z.buffer).contains(k) by {
                let rest = x.keys + x.buffer;
                if rest.contains(k) {
                    let i = choose|i: int| 0 <= i < rest.len() && rest[i] == k;
                    assert(both[i] == k);
                } else {
                    assert(both[rest.len() as int] == k);
                }
                assert(both.contains(k));
            }
        },
        None => {
            let keys = seq![key];
            assert(z.keys + z.buffer =~= keys);
            assert(keys[0] == id_key(row_id, fl));
        },
    }
    assert forall|id: u64| #[trigger] after.rows.dom().contains(id) implies (z.keys
        + z.buffer).contains(id_key(id, fl)) by {
        if id != row_id {
            assert(t.rows.dom().contains(id));
        } else if t.index is None {
            assert((z.keys + z.buffer)[0] == key);
        }
    }
}

// ---- ids stay indexed -------------------------------------------------------------------

/// The index of each table has the id of each of its rows.
pub open spec fn all_indexed(tables: Map<u64, TableModel>, fl: FloatModel) -> bool {
    forall|id: u64| #[trigger] tables.dom().contains(id) ==> ids_indexed(tables[id], fl)
}

/// Whether a row that a write updates is there.
spec fn finds_its_row(tables: Map<u64, TableModel>, w: Write) -> bool {
    match w {
        Write::Update { table_id, row_id, .. } => tables.dom().contains(table_id)
            ==> tables[table_id].rows.dom().contains(row_id),
        _ => true,
    }
}

/// Whether a store has all rows that another has.
spec fn has_rows_of(after: Map<u64, TableModel>, before: Map<u64, TableModel>) -> bool {
    &&& after.dom() == before.dom()
    &&& forall|id: u64, r: u64|
        before.dom().contains(id) && #[trigger] before[id].rows.dom().contains(r)
            ==> after[id].rows.dom().contains(r)
}

proof fn lemma_writes_indexed(
    a: Map<u64, TableModel>,
    ws: Seq<Write>,
    n: int,
    ts: u64,
    fl: FloatModel,
)
    requires
        counts_exactly(fl),
        all_indexed(a, fl),
        n <= ws.len(),
        forall|i: int| 0 <= i < ws.len() ==> finds_its_row(a, #[trigger] ws[i]),
    ensures
        all_indexed(all_written(a, ws, n, ts, fl), fl),
        has_rows_of(all_written(a, ws, n, ts, fl), a),
    decreases n,
{
    if n > 0 {
        lemma_writes_indexed(a, ws, n - 1, ts, fl);
        let b = all_written(a, ws, n - 1, ts, fl);
        let w = ws[n - 1];
        let c = written(b, w, ts, fl);
        let id = target(w).0;
        if b.dom().contains(id) {
            assert(finds_its_row(a, w));
            assert(ids_indexed(b[id], fl));
            match w {
                Write::Insert { row_id, data, .. } => {
                    an_inserted_id_is_indexed(b[id], row_id, ts, data, fl);
                },
                Write::Update { row_id, .. } => {
                    assert(a[id].rows.dom().contains(row_id));
                    assert(c[id].rows.dom() =~= b[id].rows.dom());
                },
                Write::Delete { .. } => {
                    assert(c[id].rows.dom() =~= b[id].rows.dom());
                },
            }
            assert(ids_indexed(c[id], fl));
            assert forall|t: u64| #[trigger] c.dom().contains(t) implies ids_indexed(c[t], fl) by {
                if t != id {
                    assert(c[t] == b[t]);
                    assert(b.dom().contains(t));
                }
            }
            assert(c.dom() =~= b.dom());
        }
    }
}

proof fn lemma_sweeps_indexed(
    a: Map<u64, TableModel>,
    q: Retention,
    ws: Seq<Write>,
    n: int,
    h: u64,
    fl: FloatModel,
)
    requires
        all_indexed(a, fl),
    ensures
        all_indexed(after_sweeps(a, q, ws, n, h, fl).0, fl),
    decreases n,
{
    if n > 0 {
        lemma_sweeps_indexed(a, q, ws, n - 1, h, fl);
        let b = after_sweeps(a, q, ws, n - 1, h, fl).0;
        let (id, row) = target(ws[n - 1]);
        let c = swept_store(b, id, row, h);
        assert forall|t: u64| #[trigger] c.dom().contains(t) implies ids_indexed(c[t], fl) by {
            assert(b.dom().contains(t));
            assert(ids_indexed(b[t], fl));
            assert(c[t].rows.dom() =~= b[t].rows.dom());
        }
    }
}

proof fn lemma_opened_indexed(tables: Map<u64, TableModel>, id: u64, fl: FloatModel)
    requires
        all_indexed(tables, fl),
    ensures
        all_indexed(with_table(tables, id), fl),
{
    let x = with_table(tables, id);
    assert forall|t: u64| #[trigger] x.dom().contains(t) implies ids_indexed(x[t], fl) by {
        if tables.dom().contains(t) {
            assert(x[t] == tables[t]);
        }
    }
}

/// Whether each of some rows has an id of the table.
spec fn ids_known<A>(t: TableModel, rows: Seq<(u64, A)>) -> bool {
    forall|k: int| 0 <= k < rows.len() ==> t.rows.dom().contains((#[trigger] rows[k]).0)
}

proof fn lemma_updated_known(
    t: TableModel,
    e: Engine,
    tx: u64,
    table_id: u64,
    clause: Option<Expr>,
    assignments: Seq<(int, Assigned)>,
    rows: Seq<(u64, Seq<u8>)>,
    i: int,
    done: Seq<(u64, Seq<Datum>)>,
    fl: FloatModel,
)
    requires
        ids_known(t, rows),
        ids_known(t, done),
        0 <= i,
    ensures
        rows_updated(
            e,
            tx,
            table_id,
            clause,
            assignments,
            rows,
            i,
            done,
            fl,
        ).result matches Ok(changed) ==> ids_known(t, changed),
    decreases rows.len() - i,
{
    if i < rows.len() {
        let row_id = rows[i].0;
        lemma_updated_known(t, e, tx, table_id, clause, assignments, rows, i + 1, done, fl);
        if let Some(row) = bytes_row(rows[i].1) {
            let l = locked(e, tx, table_id, row_id);
            if let Ok(now) = row_assigned(assignments, 0, row, row, fl) {
                let w = wrote(
                    l.0,
                    tx,
                    table_id,
                    row_id,
                    Write::Update { table_id, row_id, data: row_bytes(now) },
                );
                let more = done.push((row_id, now));
                assert(ids_known(t, more)) by {
                    assert forall|x: int| 0 <= x < more.len() implies t.rows.dom().contains(
                        (#[trigger] more[x]).0,
                    ) by {
                        if x < done.len() {
                            assert(more[x] == done[x]);
                        }
                    }
                }
                lemma_updated_known(
                    t,
                    w.0,
                    tx,
                    table_id,
                    clause,
                    assignments,
                    rows,
                    i + 1,
                    more,
                    fl,
                );
            }
        }
    }
}

proof fn lemma_candidates_known(db: Db, s: SchemaModel, clause: Option<Seq<char>>, fl: FloatModel)
    ensures
        ({
            let id = s.table_id as u64;
            db.engine.tables.dom().contains(id) ==> ids_known(
                db.engine.tables[id],
                write_candidates(db, s, clause, fl),
            )
        }),
{
    let id = s.table_id as u64;
    let rows = write_candidates(db, s, clause, fl);
    let all = rows_at(db.engine.tables, id, db.engine.clock);
    if db.engine.tables.dom().contains(id) {
        let t = db.engine.tables[id];
        assert forall|k: int| 0 <= k < rows.len() implies t.rows.dom().contains(
            (#[trigger] rows[k]).0,
        ) by {
            let p = rows[k];
            assert(rows.contains(p));
            if rows == all {
                lemma_seen_is_stored(t, in_order(t.rows.dom()), 0, db.engine.clock, p);
            } else {
                let c = tokens_of(clause->0);
                if key_asked(s, c, fl) is None {
                    let ids = candidate_ids(db, s, c[0], c[1], c[2], fl)->0;
                    let once = first_mentions(ids, ids.len() as int);
                    lemma_stored_rows(db, id, once, 0, p);
                }
            }
            assert(row_at(t, p.0, db.engine.clock) is Some);
        }
    }
}

/// Ids stay indexed: where the index of each table has the id of each of its rows, it has
/// once a statement has been run.
pub proof fn ids_stay_indexed(db: Db, s: StatementModel, fl: FloatModel)
    requires
        counts_exactly(fl),
        all_indexed(db.engine.tables, fl),
    ensures
        all_indexed(after_change(db, s, fl).engine.tables, fl),
{
    let d = after_change(db, s, fl);
    if let Some((schema, rows)) = changed(db, s, fl) {
        let id = schema.table_id as u64;
        let e = started(db, s, fl).db.engine;
        let ws = changes_of(db, s, fl);
        lemma_changes(db, s, fl);
        lemma_opened_indexed(db.engine.tables, id, fl);
        assert forall|i: int| 0 <= i < ws.len() implies finds_its_row(
            e.tables,
            #[trigger] ws[i],
        ) by {
            if let StatementModel::Update(q) = s {
                lemma_update_finds_its_rows(db, q, fl);
                assert(e.tables[id].rows.dom().contains(rows[i].0));
            }
        }
        let ts = (e.clock + 1) as u64;
        lemma_writes_indexed(e.tables, ws, ws.len() as int, ts, fl);
        lemma_sweeps_indexed(
            all_written(e.tables, ws, ws.len() as int, ts, fl),
            e.retention,
            ws,
            ws.len() as int,
            horizon(e.snapshots.remove(db.engine.next_tx), ts),
            fl,
        );
    } else {
        match s {
            StatementModel::Insert(q) => {
                insertions_are_buffered(db, q, fl);
            },
            StatementModel::Update(q) => {
                replacements_are_buffered(db, q, fl);
            },
            StatementModel::Delete(q) => {
                removals_are_buffered(db, q, fl);
            },
            StatementModel::CreateTable(q) => {
                if let Ok(schema) = new_schema(db.catalog, q) {
                    lemma_opened_indexed(db.engine.tables, schema.table_id as u64, fl);
                }
            },
            _ => {},
        }
        if let Some(schema) = table_named(db.catalog, changed_table(s)) {
            lemma_opened_indexed(db.engine.tables, schema.table_id as u64, fl);
        }
    }
}

proof fn lemma_update_finds_its_rows(db: Db, q: UpdateModel, fl: FloatModel)
    requires
        changed(db, StatementModel::Update(q), fl) is Some,
    ensures
        ({
            let s = StatementModel::Update(q);
            let (schema, rows) = changed(db, s, fl)->0;
            let id = schema.table_id as u64;
            ids_known(with_table(db.engine.tables, id)[id], rows)
        }),
{
    let s = StatementModel::Update(q);
    let schema = (changed(db, s, fl)->0).0;
    lemma_changes(db, s, fl);
    let id = schema.table_id as u64;
    let e = opened(db.engine, id);
    let now = Db { engine: e, ..db };
    let none = Seq::<(u64, Seq<Datum>)>::empty();
    if let Ok(a) = assignments_read(schema, q.assignments, 0, Seq::empty(), fl) {
        lemma_candidates_known(now, schema, q.where_clause, fl);
        if let Ok(clause) = clause_predicate(q.where_clause, schema, fl) {
            lemma_updated_known(
                e.tables[id],
                e,
                db.engine.next_tx,
                id,
                clause,
                a,
                write_candidates(now, schema, q.where_clause, fl),
                0,
                none,
                fl,
            );
        }
    }
}

/// A new database is as statements leave one.
pub proof fn a_new_database_is_complete(catalog: Seq<SchemaModel>, fl: FloatModel)
    requires
        distinct_ids(catalog),
    ensures
        lookups_complete(new_db(catalog), fl),
{
}

/// A database stays as its statements leave it.
pub proof fn lookups_stay_complete(db: Db, s: StatementModel, fl: FloatModel)
    requires
        counts_exactly(fl),
        lookups_complete(db, fl),
        in_time(db.engine),
        db.engine.clock < TS_INFINITY - 1,
        is_ordinary(db, s, fl),
    ensures
        lookups_complete(after_change(db, s, fl), fl),
{
    assert(all_indexed(db.engine.tables, fl));
    rows_stay_keyed(db, s, fl);
    indexes_stay_complete(db, s, fl);
    ids_stay_indexed(db, s, fl);
}

} // verus!
