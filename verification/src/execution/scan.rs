//! Reading tables: whole, by primary key, and through an index.

use vstd::prelude::*;
use std::collections::HashSet;
use crate::error::{DatabaseError, Fault};
use crate::execution::catalog::{table_named, SchemaModel, TableSchema};
use crate::execution::executor::{index_models, Db, IndexModel, QueryExecutor};
use crate::execution::mvcc_store::{exact_ids, id_rows, ids_in_range, stored_at, EXACT_BELOW};
use crate::execution::oltp::rows_at;
use crate::execution::operators::{rows, Datum, Tuple, Value};
use crate::execution::relation::{
    execution_error, execution_fault, filter_rows, kept_rows, relation_result, Relation,
    RelationModel,
};
use crate::execution::row_codec::bytes::{bytes_row, decode_row};
use crate::execution::row_codec::literals::{parse_value, value_reading};
use crate::execution::row_codec::predicate::{
    comparison, comparison_op, widen, widened, CompiledPredicate, Expr, Operand,
};
use crate::execution::row_codec::tokens::{split_comparison, tokens_of};
use crate::execution::secondary_index::{rows_between, rows_with, suited, Bound, End};
use crate::float::{not_a_number, FloatModel, FloatOp, Floats, F64};
use crate::optimizer::cost_model::ONE;
use crate::text::same;

verus! {

/// The bits of the largest finite float.
pub const LARGEST_FLOAT: u64 = 0x7fef_ffff_ffff_ffff;

/// The bits of the smallest finite float.
pub const SMALLEST_FLOAT: u64 = 0xffef_ffff_ffff_ffff;

// ---- whole tables -----------------------------------------------------------------------

/// The rows that some stored rows hold, from the `i`-th on. Bytes that hold no row
/// are passed over.
pub open spec fn decoded_rows(stored: Seq<(u64, Seq<u8>)>, i: int) -> Seq<Seq<Datum>>
    decreases stored.len() - i,
{
    if 0 <= i < stored.len() {
        let rest = decoded_rows(stored, i + 1);
        match bytes_row(stored[i].1) {
            Some(row) => seq![row] + rest,
            None => rest,
        }
    } else {
        Seq::empty()
    }
}

/// The rows that some stored rows hold.
pub fn decode_rows(stored: &Vec<(u64, Vec<u8>)>) -> (r: Vec<Tuple>)
    ensures
        rows(r@) == decoded_rows(id_rows(stored@), 0),
{
    let ghost all = id_rows(stored@);
    let mut out: Vec<Tuple> = Vec::new();
    let mut i: usize = 0;
    assert(rows(out@) + decoded_rows(all, 0) =~= decoded_rows(all, 0));
    while i < stored.len()
        invariant
            i <= stored@.len(),
            all == id_rows(stored@),
            decoded_rows(all, 0) == rows(out@) + decoded_rows(all, i as int),
        decreases stored@.len() - i,
    {
        let ghost before = rows(out@);
        assert(all[i as int] == (stored@[i as int].0, stored@[i as int].1@));
        match decode_row(stored[i].1.as_slice()) {
            Some(t) => {
                out.push(t);
                assert(rows(out@) =~= before.push(t@));
                assert(before + (seq![t@] + decoded_rows(all, i + 1)) =~= rows(out@) + decoded_rows(
                    all,
                    i + 1,
                ));
            },
            None => {},
        }
        i = i + 1;
    }
    assert(rows(out@) + Seq::<Seq<Datum>>::empty() =~= rows(out@));
    out
}

/// The fault of a table that does not exist.
pub open spec fn unknown_table(name: Seq<char>) -> Fault {
    execution_fault("Unknown table '"@ + name + "'"@)
}

/// A table with the rows that have been committed by now.
pub open spec fn table_scan(db: Db, name: Seq<char>) -> Result<RelationModel, Fault> {
    match table_named(db.catalog, name) {
        Some(s) => Ok(
            RelationModel {
                schema: s,
                rows: decoded_rows(
                    rows_at(db.engine.tables, s.table_id as u64, db.engine.clock),
                    0,
                ),
            },
        ),
        None => Err(unknown_table(name)),
    }
}

// ---- by row id --------------------------------------------------------------------------

/// The first mention of each of the first `n` ids.
pub open spec fn first_mentions(ids: Seq<u64>, n: int) -> Seq<u64>
    decreases n,
{
    if n <= 0 || n > ids.len() {
        Seq::empty()
    } else {
        let before = first_mentions(ids, n - 1);
        if before.contains(ids[n - 1]) {
            before
        } else {
            before.push(ids[n - 1])
        }
    }
}

/// The first mention of each id.
pub fn without_repeats(ids: &Vec<u64>) -> (r: Vec<u64>)
    ensures
        r@ == first_mentions(ids@, ids@.len() as int),
{
    broadcast use vstd::std_specs::hash::group_hash_axioms;

    let mut out: Vec<u64> = Vec::new();
    let mut seen: HashSet<u64> = HashSet::new();
    let mut i: usize = 0;
    while i < ids.len()
        invariant
            i <= ids@.len(),
            out@ == first_mentions(ids@, i as int),
            forall|id: u64| #[trigger] seen@.contains(id) <==> out@.contains(id),
        decreases ids@.len() - i,
    {
        let ghost before = out@;
        if seen.insert(ids[i]) {
            out.push(ids[i]);
            assert forall|id: u64| #[trigger] seen@.contains(id) <==> out@.contains(id) by {
                if out@.contains(id) && id != ids@[i as int] {
                    let k = choose|k: int| 0 <= k < out@.len() && out@[k] == id;
                    assert(before[k] == id);
                }
                if before.contains(id) {
                    let k = choose|k: int| 0 <= k < before.len() && before[k] == id;
                    assert(out@[k] == id);
                }
                assert(out@[before.len() as int] == ids@[i as int]);
            }
        }
        i = i + 1;
    }
    out
}

/// What has been committed by now of some rows, of the ids from the `i`-th on.
pub open spec fn stored_rows(db: Db, table_id: u64, ids: Seq<u64>, i: int) -> Seq<(u64, Seq<u8>)>
    decreases ids.len() - i,
{
    if 0 <= i < ids.len() {
        let rest = stored_rows(db, table_id, ids, i + 1);
        match stored_at(db.engine.tables, table_id, ids[i], db.engine.clock) {
            Some(b) => seq![(ids[i], b)] + rest,
            None => rest,
        }
    } else {
        Seq::empty()
    }
}

/// The rows of some ids, each id once.
pub open spec fn rows_of_ids(db: Db, table_id: u64, ids: Seq<u64>) -> Seq<Seq<Datum>> {
    let once = first_mentions(ids, ids.len() as int);
    decoded_rows(stored_rows(db, table_id, once, 0), 0)
}

/// The comparison of a column with a literal that three tokens make, where they make
/// one.
pub open spec fn literal_comparison(
    s: SchemaModel,
    left: Seq<char>,
    op: Seq<char>,
    right: Seq<char>,
    fl: FloatModel,
) -> Option<Expr> {
    match (s.position(left), s.position(right), comparison(op)) {
        (Some(c), None, Some(o)) => Some(
            Expr::Comparison(
                c,
                o,
                Operand::Literal(value_reading(right, s.columns[c].data_type, fl)),
            ),
        ),
        _ => None,
    }
}

/// The range of the index over row ids that a comparison of the primary key with
/// a literal asks for. Only an integer literal that is a float of its own has one, and
/// `!=` has none.
pub open spec fn key_range(
    s: SchemaModel,
    left: Seq<char>,
    op: Seq<char>,
    right: Seq<char>,
    fl: FloatModel,
) -> Option<(u64, u64)> {
    match s.key_position() {
        None => None,
        Some(k) => if s.position(left) != Some(k) || s.position(right) is Some {
            None
        } else {
            match value_reading(right, s.columns[k].data_type, fl) {
                Datum::Integer(i) => {
                    let x = widened(i, fl);
                    if i < 0 || i >= EXACT_BELOW {
                        None
                    } else if op == "="@ {
                        Some((x, x))
                    } else if op == ">"@ {
                        Some(((fl.gives)(FloatOp::Plus, x, ONE), LARGEST_FLOAT))
                    } else if op == ">="@ {
                        Some((x, LARGEST_FLOAT))
                    } else if op == "<"@ {
                        Some((SMALLEST_FLOAT, (fl.gives)(FloatOp::Minus, x, ONE)))
                    } else if op == "<="@ {
                        Some((SMALLEST_FLOAT, x))
                    } else {
                        None
                    }
                },
                _ => None,
            }
        },
    }
}

/// The rows that the index over row ids yields for a comparison. It serves only where
/// all ids in it are floats of their own.
pub open spec fn key_rows(
    db: Db,
    s: SchemaModel,
    left: Seq<char>,
    op: Seq<char>,
    right: Seq<char>,
    fl: FloatModel,
) -> Option<Seq<Seq<Datum>>> {
    match key_range(s, left, op, right, fl) {
        None => None,
        Some((min, max)) => {
            let id = s.table_id as u64;
            if not_a_number(min) {
                None
            } else if !db.engine.tables.dom().contains(id) {
                Some(Seq::empty())
            } else if !exact_ids(db.engine.tables[id].index, fl) {
                None
            } else {
                Some(rows_of_ids(db, id, ids_in_range(db.engine.tables[id].index, min, max, fl)))
            }
        },
    }
}

// ---- through an index -------------------------------------------------------------------

/// The place of the index over a column, at `from` or after it.
pub open spec fn index_place(
    indexes: Seq<IndexModel>,
    table_id: u64,
    column: Seq<char>,
    from: int,
) -> Option<int>
    decreases indexes.len() - from,
{
    if from < 0 || from >= indexes.len() {
        None
    } else if indexes[from].table_id == table_id && indexes[from].column == column {
        Some(from)
    } else {
        index_place(indexes, table_id, column, from + 1)
    }
}

/// The ids that an index yields for a comparison; `!=` yields none.
pub open spec fn ids_compared(entries: Seq<(Datum, Seq<u64>)>, op: Seq<char>, d: Datum) -> Option<
    Seq<u64>,
> {
    if op == "="@ {
        Some(rows_with(entries, d))
    } else if op == ">"@ {
        Some(rows_between(entries, End::Excluded(d), End::Unbounded, 0))
    } else if op == ">="@ {
        Some(rows_between(entries, End::Included(d), End::Unbounded, 0))
    } else if op == "<"@ {
        Some(rows_between(entries, End::Unbounded, End::Excluded(d), 0))
    } else if op == "<="@ {
        Some(rows_between(entries, End::Unbounded, End::Included(d), 0))
    } else {
        None
    }
}

/// The ids that the index over a column yields for a comparison with a literal, where
/// there is such an index and its values stand to the literal as they compare with it.
/// A row may have another value by now.
pub open spec fn candidate_ids(
    db: Db,
    s: SchemaModel,
    left: Seq<char>,
    op: Seq<char>,
    right: Seq<char>,
    fl: FloatModel,
) -> Option<Seq<u64>> {
    match (
        index_place(db.indexes, s.table_id as u64, left, 0),
        s.position(left),
        s.position(right),
    ) {
        (Some(i), Some(c), None) => {
            let d = value_reading(right, s.columns[c].data_type, fl);
            if suited(db.indexes[i].entries, d) {
                ids_compared(db.indexes[i].entries, op, d)
            } else {
                None
            }
        },
        _ => None,
    }
}

/// The rows that the index over a column yields for a comparison: of the rows that
/// it names, those that still satisfy it.
pub open spec fn candidate_rows(
    db: Db,
    s: SchemaModel,
    left: Seq<char>,
    op: Seq<char>,
    right: Seq<char>,
    fl: FloatModel,
) -> Option<Seq<Seq<Datum>>> {
    match (
        candidate_ids(db, s, left, op, right, fl),
        literal_comparison(s, left, op, right, fl),
    ) {
        (Some(ids), Some(e)) => Some(kept_rows(e, rows_of_ids(db, s.table_id as u64, ids), fl)),
        _ => None,
    }
}

/// A table narrowed by a comparison through one of its indexes, where one serves.
pub open spec fn index_scan(
    db: Db,
    name: Seq<char>,
    left: Seq<char>,
    op: Seq<char>,
    right: Seq<char>,
    fl: FloatModel,
) -> Result<Option<RelationModel>, Fault> {
    match table_named(db.catalog, name) {
        None => Err(unknown_table(name)),
        Some(s) => match key_rows(db, s, left, op, right, fl) {
            Some(found) => Ok(Some(RelationModel { schema: s, rows: found })),
            None => match candidate_rows(db, s, left, op, right, fl) {
                Some(found) => Ok(Some(RelationModel { schema: s, rows: found })),
                None => Ok(None),
            },
        },
    }
}

/// A relation that may be missing, or an error, as its model.
pub open spec fn scan_result(r: Result<Option<Relation>, DatabaseError>) -> Result<
    Option<RelationModel>,
    Fault,
> {
    match r {
        Ok(Some(x)) => Ok(Some(x@)),
        Ok(None) => Ok(None),
        Err(e) => Err(e@),
    }
}

/// A list of ids that may be missing, as its model.
pub open spec fn optional_ids(v: Option<Vec<u64>>) -> Option<Seq<u64>> {
    match v {
        Some(ids) => Some(ids@),
        None => None,
    }
}

/// A list of rows that may be missing, as its model.
pub open spec fn optional_rows(v: Option<Vec<Tuple>>) -> Option<Seq<Seq<Datum>>> {
    match v {
        Some(t) => Some(rows(t@)),
        None => None,
    }
}

impl QueryExecutor {
    /// A table's schema.
    pub fn schema_of(&self, name: &str) -> (r: Result<TableSchema, DatabaseError>)
        ensures
            match r {
                Ok(s) => table_named(self@.catalog, name@) == Some(s@),
                Err(e) => table_named(self@.catalog, name@) is None && e@ == unknown_table(name@),
            },
    {
        match self.catalog.get_table(name) {
            Some(s) => Ok(s.clone()),
            None => Err(execution_error("Unknown table '", name, "'")),
        }
    }

    /// A table with the rows that have been committed by now.
    pub fn scan_table_tuples(&self, table_name: &str) -> (r: Result<Relation, DatabaseError>)
        requires
            self.wf(),
        ensures
            relation_result(r) == table_scan(self@, table_name@),
    {
        let schema = match self.schema_of(table_name) {
            Ok(s) => s,
            Err(e) => {
                return Err(e);
            },
        };
        let stored = self.oltp.scan_committed(schema.table_id as u64);
        Ok(Relation { schema, tuples: decode_rows(&stored) })
    }

    /// What has been committed by now of some rows.
    pub fn read_ids(&self, table_id: u64, ids: &Vec<u64>) -> (r: Vec<(u64, Vec<u8>)>)
        requires
            self.wf(),
        ensures
            id_rows(r@) == stored_rows(self@, table_id, ids@, 0),
    {
        let ghost db = self@;
        let mut out: Vec<(u64, Vec<u8>)> = Vec::new();
        let mut i: usize = 0;
        assert(id_rows(out@) + stored_rows(db, table_id, ids@, 0) =~= stored_rows(
            db,
            table_id,
            ids@,
            0,
        ));
        while i < ids.len()
            invariant
                i <= ids@.len(),
                self.wf(),
                db == self@,
                stored_rows(db, table_id, ids@, 0) == id_rows(out@) + stored_rows(
                    db,
                    table_id,
                    ids@,
                    i as int,
                ),
            decreases ids@.len() - i,
        {
            let ghost before = id_rows(out@);
            match self.oltp.read_committed(table_id, ids[i]) {
                Some(b) => {
                    let ghost entry = (ids@[i as int], b@);
                    out.push((ids[i], b));
                    assert(id_rows(out@) =~= before.push(entry));
                    assert(before + (seq![entry] + stored_rows(db, table_id, ids@, i + 1))
                        =~= id_rows(out@) + stored_rows(db, table_id, ids@, i + 1));
                },
                None => {},
            }
            i = i + 1;
        }
        assert(id_rows(out@) + Seq::<(u64, Seq<u8>)>::empty() =~= id_rows(out@));
        out
    }

    fn tuples_of_ids(&self, table_id: u64, ids: &Vec<u64>) -> (r: Vec<Tuple>)
        requires
            self.wf(),
        ensures
            rows(r@) == rows_of_ids(self@, table_id, ids@),
    {
        let once = without_repeats(ids);
        let stored = self.read_ids(table_id, &once);
        decode_rows(&stored)
    }

    fn range_of_key<F: Floats>(
        schema: &TableSchema,
        left: &str,
        op: &str,
        right: &str,
        floats: &F,
    ) -> (r: Option<(F64, F64)>)
        requires
            floats.sound(),
        ensures
            match r {
                Some(p) => key_range(schema@, left@, op@, right@, floats.model()) == Some(
                    (p.0.bits, p.1.bits),
                ),
                None => key_range(schema@, left@, op@, right@, floats.model()) is None,
            },
    {
        let k: usize = match schema.key_position() {
            Some(k) => k,
            None => {
                return None;
            },
        };
        let column = &schema.columns[k];
        assert(schema@.columns[k as int] == column@);
        match schema.position(left) {
            Some(c) if c == k => {},
            _ => {
                return None;
            },
        }
        if schema.position(right).is_some() {
            return None;
        }
        let i: i64 = match parse_value(right, column.data_type, floats) {
            Value::Integer(i) => i,
            _ => {
                return None;
            },
        };
        if i < 0 || i as u64 >= EXACT_BELOW {
            return None;
        }
        let x = widen(i, floats);
        let least = F64 { bits: SMALLEST_FLOAT };
        let most = F64 { bits: LARGEST_FLOAT };
        if same(op, "=") {
            Some((x, x))
        } else if same(op, ">") {
            Some((F64 { bits: floats.apply(FloatOp::Plus, x.bits, ONE) }, most))
        } else if same(op, ">=") {
            Some((x, most))
        } else if same(op, "<") {
            Some((least, F64 { bits: floats.apply(FloatOp::Minus, x.bits, ONE) }))
        } else if same(op, "<=") {
            Some((least, x))
        } else {
            None
        }
    }

    /// The rows that the index over row ids yields for a comparison of the primary
    /// key with a literal. As a row's id is its primary key, they need no second
    /// look.
    pub fn try_pk_index_scan<F: Floats>(
        &self,
        schema: &TableSchema,
        left: &str,
        op: &str,
        right: &str,
        floats: &F,
    ) -> (r: Option<Vec<Tuple>>)
        requires
            self.wf(),
            floats.sound(),
        ensures
            optional_rows(r) == key_rows(self@, schema@, left@, op@, right@, floats.model()),
    {
        let (min, max) = match Self::range_of_key(schema, left, op, right, floats) {
            Some(p) => p,
            None => {
                return None;
            },
        };
        if min.is_nan() {
            return None;
        }
        let table_id: u64 = schema.table_id as u64;
        let ids = match self.oltp.store.get_table(table_id) {
            Some(table) => {
                if !table.has_exact_ids(floats) {
                    return None;
                }
                table.index_range(min, max, floats)
            },
            None => {
                let none: Vec<Tuple> = Vec::new();
                assert(rows(none@) =~= Seq::<Seq<Datum>>::empty());
                return Some(none);
            },
        };
        Some(self.tuples_of_ids(table_id, &ids))
    }

    /// The ids that the index over a column yields for a comparison with a literal,
    /// where there is such an index. A row may have another value by now.
    pub fn secondary_index_candidates<F: Floats>(
        &self,
        schema: &TableSchema,
        left: &str,
        op: &str,
        right: &str,
        floats: &F,
    ) -> (r: Option<Vec<u64>>)
        requires
            self.wf(),
            floats.sound(),
        ensures
            optional_ids(r) == candidate_ids(
                self@,
                schema@,
                left@,
                op@,
                right@,
                floats.model(),
            ),
    {
        let table_id: u64 = schema.table_id as u64;
        let at: usize = match self.find_index(table_id, left) {
            Some(i) => i,
            None => {
                return None;
            },
        };
        let c: usize = match schema.position(left) {
            Some(c) => c,
            None => {
                return None;
            },
        };
        if schema.position(right).is_some() {
            return None;
        }
        let literal = parse_value(right, schema.columns[c].data_type, floats);
        assert(schema@.columns[c as int] == schema.columns@[c as int]@);
        let index = &self.secondary_indexes[at].index;
        assert(self@.indexes[at as int] == self.secondary_indexes@[at as int]@);
        if !index.suits(&literal) {
            return None;
        }
        if same(op, "=") {
            Some(index.equals(&literal))
        } else if same(op, ">") {
            Some(index.range(Bound::Excluded(literal), Bound::Unbounded))
        } else if same(op, ">=") {
            Some(index.range(Bound::Included(literal), Bound::Unbounded))
        } else if same(op, "<") {
            Some(index.range(Bound::Unbounded, Bound::Excluded(literal)))
        } else if same(op, "<=") {
            Some(index.range(Bound::Unbounded, Bound::Included(literal)))
        } else {
            None
        }
    }

    /// The place of the index over a column.
    pub fn find_index(&self, table_id: u64, column: &str) -> (r: Option<usize>)
        ensures
            match r {
                Some(i) => index_place(self@.indexes, table_id, column@, 0) == Some(i as int) && i
                    < self.secondary_indexes@.len(),
                None => index_place(self@.indexes, table_id, column@, 0) is None,
            },
    {
        let ghost all = self@.indexes;
        let mut i: usize = 0;
        while i < self.secondary_indexes.len()
            invariant
                i <= self.secondary_indexes@.len(),
                all == index_models(self.secondary_indexes@),
                index_place(all, table_id, column@, 0) == index_place(
                    all,
                    table_id,
                    column@,
                    i as int,
                ),
            decreases self.secondary_indexes@.len() - i,
        {
            let x = &self.secondary_indexes[i];
            assert(all[i as int] == x@);
            if x.table_id == table_id && same(x.column.as_str(), column) {
                return Some(i);
            }
            i = i + 1;
        }
        None
    }

    fn try_secondary_index_scan<F: Floats>(
        &self,
        schema: &TableSchema,
        left: &str,
        op: &str,
        right: &str,
        floats: &F,
    ) -> (r: Option<Vec<Tuple>>)
        requires
            self.wf(),
            floats.sound(),
        ensures
            optional_rows(r) == candidate_rows(
                self@,
                schema@,
                left@,
                op@,
                right@,
                floats.model(),
            ),
    {
        let ids = match self.secondary_index_candidates(schema, left, op, right, floats) {
            Some(ids) => ids,
            None => {
                return None;
            },
        };
        match (schema.position(left), comparison_op(op)) {
            (Some(c), Some(o)) => {
                assert(schema@.columns[c as int] == schema.columns@[c as int]@);
                let literal = parse_value(right, schema.columns[c].data_type, floats);
                let p = CompiledPredicate::of_comparison(c, o, literal);
                let tuples = self.tuples_of_ids(schema.table_id as u64, &ids);
                Some(filter_rows(tuples, &p, floats))
            },
            _ => None,
        }
    }

    /// A table narrowed by a comparison through one of its indexes, where one
    /// serves.
    pub fn try_indexed_scan_split<F: Floats>(
        &self,
        table_name: &str,
        left: &str,
        op: &str,
        right: &str,
        floats: &F,
    ) -> (r: Result<Option<Relation>, DatabaseError>)
        requires
            self.wf(),
            floats.sound(),
        ensures
            scan_result(r) == index_scan(
                self@,
                table_name@,
                left@,
                op@,
                right@,
                floats.model(),
            ),
    {
        let schema = match self.schema_of(table_name) {
            Ok(s) => s,
            Err(e) => {
                return Err(e);
            },
        };
        if let Some(tuples) = self.try_pk_index_scan(&schema, left, op, right, floats) {
            return Ok(Some(Relation { schema, tuples }));
        }
        match self.try_secondary_index_scan(&schema, left, op, right, floats) {
            Some(tuples) => Ok(Some(Relation { schema, tuples })),
            None => Ok(None),
        }
    }

    /// A table narrowed by a predicate through one of its indexes, where the
    /// predicate is a single comparison and an index serves.
    pub fn try_indexed_scan<F: Floats>(&self, table_name: &str, predicate: &str, floats: &F) -> (r:
        Result<Option<Relation>, DatabaseError>)
        requires
            self.wf(),
            floats.sound(),
        ensures
            scan_result(r) == (if tokens_of(predicate@).len() == 3 {
                index_scan(
                    self@,
                    table_name@,
                    tokens_of(predicate@)[0],
                    tokens_of(predicate@)[1],
                    tokens_of(predicate@)[2],
                    floats.model(),
                )
            } else {
                Ok(None)
            }),
    {
        match split_comparison(predicate) {
            Some((left, op, right)) => self.try_indexed_scan_split(
                table_name,
                left.as_str(),
                op.as_str(),
                right.as_str(),
                floats,
            ),
            None => Ok(None),
        }
    }
}

} // verus!
