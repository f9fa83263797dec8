//! Operators on a relation: choosing, narrowing, ordering and cutting rows.

use vstd::prelude::*;
use crate::error::{DatabaseError, Fault};
use crate::execution::catalog::{ColumnModel, SchemaModel, TableSchema};
use crate::execution::operators::{data, rows, Datum, Tuple, Value};
use crate::execution::row_codec::ordering::{
    covers, key_models, places, sort_rows, sorted_rows, Place, SortKey,
};
use crate::execution::row_codec::predicate::{keeps, predicate_of, CompiledPredicate, Expr};
use crate::float::{FloatModel, Floats};
use crate::text::{join3, same, texts};

verus! {

/// Rows and the schema they follow.
#[derive(Debug)]
pub struct Relation {
    pub schema: TableSchema,
    pub tuples: Vec<Tuple>,
}

/// A relation as contracts speak of it.
pub struct RelationModel {
    pub schema: SchemaModel,
    pub rows: Seq<Seq<Datum>>,
}

impl View for Relation {
    type V = RelationModel;

    open spec fn view(&self) -> RelationModel {
        RelationModel { schema: self.schema@, rows: rows(self.tuples@) }
    }
}

/// A relation result as its model.
pub open spec fn relation_result(r: Result<Relation, DatabaseError>) -> Result<
    RelationModel,
    Fault,
> {
    match r {
        Ok(x) => Ok(x@),
        Err(e) => Err(e@),
    }
}

/// The fault of an execution, with its text.
pub open spec fn execution_fault(text: Seq<char>) -> Fault {
    Fault::Execution(text)
}

/// An execution error with a text in the middle.
pub fn execution_error(before: &str, text: &str, after: &str) -> (r: DatabaseError)
    ensures
        r@ == Fault::Execution(before@ + text@ + after@),
{
    DatabaseError::ExecutionError(join3(before, text, after))
}

// ---- filter --------------------------------------------------------------------

/// The rows that a predicate keeps.
pub open spec fn kept_rows(e: Expr, input: Seq<Seq<Datum>>, fl: FloatModel) -> Seq<Seq<Datum>> {
    input.filter(|row: Seq<Datum>| keeps(e, row, fl) == Some(true))
}

/// Keeps the rows that a predicate is true of.
pub fn filter_rows<F: Floats>(tuples: Vec<Tuple>, p: &CompiledPredicate, floats: &F) -> (r: Vec<
    Tuple,
>)
    requires
        floats.sound(),
    ensures
        rows(r@) == kept_rows(p.model(), rows(tuples@), floats.model()),
{
    let ghost fl = floats.model();
    let ghost pred = |row: Seq<Datum>| keeps(p.model(), row, fl) == Some(true);
    let ghost all = rows(tuples@);
    let mut out: Vec<Tuple> = Vec::new();
    let mut i: usize = 0;
    proof {
        reveal(Seq::filter);
        assert(all.take(0) == Seq::<Seq<Datum>>::empty());
        assert(rows(out@) == Seq::<Seq<Datum>>::empty());
    }
    while i < tuples.len()
        invariant
            i <= tuples@.len(),
            floats.sound(),
            fl == floats.model(),
            pred == (|row: Seq<Datum>| keeps(p.model(), row, fl) == Some(true)),
            all == rows(tuples@),
            rows(out@) == all.take(i as int).filter(pred),
        decreases tuples@.len() - i,
    {
        proof {
            reveal(Seq::filter);
            assert(all.take(i + 1).drop_last() == all.take(i as int));
            assert(all.take(i + 1).last() == tuples@[i as int]@);
        }
        let keep = match p.eval(&tuples[i], floats) {
            Some(b) => b,
            None => false,
        };
        if keep {
            let ghost before = rows(out@);
            out.push(tuples[i].clone());
            assert(rows(out@) == before.push(tuples@[i as int]@));
        }
        i = i + 1;
    }
    assert(all.take(i as int) == all);
    out
}

/// A relation under a `WHERE` clause.
pub open spec fn filtered(input: RelationModel, predicate: Seq<char>, fl: FloatModel) -> Result<
    RelationModel,
    Fault,
> {
    match predicate_of(predicate, input.schema, fl) {
        Some(e) => Ok(RelationModel { rows: kept_rows(e, input.rows, fl), ..input }),
        None => Err(execution_fault("Unsupported WHERE clause: '"@ + predicate + "'"@)),
    }
}

/// Applies a `WHERE` clause. A clause that is not a predicate is an error.
pub fn apply_filter<F: Floats>(input: Relation, predicate: &str, floats: &F) -> (r: Result<
    Relation,
    DatabaseError,
>)
    requires
        floats.sound(),
    ensures
        relation_result(r) == filtered(input@, predicate@, floats.model()),
{
    match CompiledPredicate::compile(predicate, &input.schema, floats) {
        Some(p) => {
            let tuples = filter_rows(input.tuples, &p, floats);
            Ok(Relation { schema: input.schema, tuples })
        },
        None => Err(execution_error("Unsupported WHERE clause: '", predicate, "'")),
    }
}

// ---- project --------------------------------------------------------------------

/// The places of the named columns, from name `i` on; the first name that no
/// column has is the fault.
pub open spec fn resolved(
    names: Seq<Seq<char>>,
    i: int,
    schema: SchemaModel,
    before: Seq<char>,
    after: Seq<char>,
) -> Result<Seq<int>, Fault>
    decreases names.len() - i,
{
    if i < 0 || i >= names.len() {
        Ok(Seq::empty())
    } else {
        match schema.position(names[i]) {
            None => Err(execution_fault(before + names[i] + after)),
            Some(p) => match resolved(names, i + 1, schema, before, after) {
                Ok(rest) => Ok(seq![p] + rest),
                Err(f) => Err(f),
            },
        }
    }
}

pub open spec fn as_ints(v: Seq<usize>) -> Seq<int> {
    v.map_values(|i: usize| i as int)
}

/// Resolves names to places of a schema.
pub fn resolve_columns(names: &Vec<String>, schema: &TableSchema, before: &str, after: &str) -> (r:
    Result<Vec<usize>, DatabaseError>)
    ensures
        match r {
            Ok(v) => {
                &&& resolved(texts(names@), 0, schema@, before@, after@) == Ok::<_, Fault>(
                    as_ints(v@),
                )
                &&& v@.len() == names@.len()
                &&& forall|i: int| 0 <= i < v@.len() ==> (#[trigger] v@[i]) < schema.columns@.len()
            },
            Err(e) => resolved(texts(names@), 0, schema@, before@, after@) == Err::<
                Seq<int>,
                _,
            >(e@),
        },
{
    let ghost all = texts(names@);
    let ghost whole = resolved(all, 0, schema@, before@, after@);
    let mut out: Vec<usize> = Vec::new();
    let mut i: usize = 0;
    while i < names.len()
        invariant
            i <= names@.len(),
            all == texts(names@),
            whole == resolved(all, 0, schema@, before@, after@),
            out@.len() == i,
            forall|k: int| 0 <= k < out@.len() ==> (#[trigger] out@[k]) < schema.columns@.len(),
            match resolved(all, i as int, schema@, before@, after@) {
                Ok(rest) => whole == Ok::<_, Fault>(as_ints(out@) + rest),
                Err(f) => whole == Err::<Seq<int>, _>(f),
            },
        decreases names@.len() - i,
    {
        assert(all[i as int] == names@[i as int]@);
        match schema.position(names[i].as_str()) {
            Some(p) => {
                let ghost done = as_ints(out@);
                out.push(p);
                proof {
                    assert(as_ints(out@) == done.push(p as int));
                    if let Ok(rest) = resolved(all, i + 1, schema@, before@, after@) {
                        assert(done + (seq![p as int] + rest) == done.push(p as int) + rest);
                    }
                }
            },
            None => {
                return Err(execution_error(before, names[i].as_str(), after));
            },
        }
        i = i + 1;
    }
    assert(as_ints(out@) + Seq::<int>::empty() == as_ints(out@));
    Ok(out)
}

/// The values of a row at some places, in the order of the places.
pub open spec fn picked(row: Seq<Datum>, at: Seq<int>) -> Seq<Datum> {
    Seq::new(at.len(), |i: int| row[at[i]])
}

/// The columns of a schema at some places.
pub open spec fn picked_columns(columns: Seq<ColumnModel>, at: Seq<int>) -> Seq<ColumnModel> {
    Seq::new(at.len(), |i: int| columns[at[i]])
}

/// Every place is one of the row.
pub open spec fn within(row: Seq<Datum>, at: Seq<int>) -> bool {
    forall|i: int| 0 <= i < at.len() ==> 0 <= #[trigger] at[i] < row.len()
}

/// Every row has every place.
pub open spec fn all_within(input: Seq<Seq<Datum>>, at: Seq<int>) -> bool {
    forall|i: int| 0 <= i < input.len() ==> within(#[trigger] input[i], at)
}

/// Whether every row has every place.
pub fn rows_reach(tuples: &Vec<Tuple>, at: &Vec<usize>) -> (r: bool)
    ensures
        r == all_within(rows(tuples@), as_ints(at@)),
{
    let ghost all = rows(tuples@);
    let ghost ps = as_ints(at@);
    let mut i: usize = 0;
    while i < tuples.len()
        invariant
            i <= tuples@.len(),
            all == rows(tuples@),
            ps == as_ints(at@),
            forall|k: int| 0 <= k < i ==> within(#[trigger] all[k], ps),
        decreases tuples@.len() - i,
    {
        assert(all[i as int] == tuples@[i as int]@);
        let mut j: usize = 0;
        while j < at.len()
            invariant
                i < tuples@.len(),
                j <= at@.len(),
                all == rows(tuples@),
                ps == as_ints(at@),
                all[i as int] == tuples@[i as int]@,
                forall|k: int| 0 <= k < j ==> 0 <= #[trigger] ps[k] < all[i as int].len(),
            decreases at@.len() - j,
        {
            if at[j] >= tuples[i].values.len() {
                assert(ps[j as int] >= all[i as int].len());
                assert(!within(all[i as int], ps));
                return false;
            }
            j = j + 1;
        }
        i = i + 1;
    }
    true
}

/// The values of a row at some places.
pub fn pick_values(row: &Tuple, at: &Vec<usize>) -> (r: Vec<Value>)
    requires
        within(row@, as_ints(at@)),
    ensures
        data(r@) == picked(row@, as_ints(at@)),
{
    let ghost ps = as_ints(at@);
    let mut out: Vec<Value> = Vec::new();
    let mut i: usize = 0;
    while i < at.len()
        invariant
            i <= at@.len(),
            ps == as_ints(at@),
            within(row@, ps),
            out@.len() == i,
            forall|k: int| 0 <= k < i ==> (#[trigger] out@[k])@ == row@[ps[k]],
        decreases at@.len() - i,
    {
        assert(ps[i as int] == at@[i as int]);
        out.push(row.values[at[i]].clone());
        i = i + 1;
    }
    assert(data(out@) == picked(row@, ps));
    out
}

/// The rows narrowed to some places.
pub open spec fn picked_rows(input: Seq<Seq<Datum>>, at: Seq<int>) -> Seq<Seq<Datum>> {
    input.map_values(|row: Seq<Datum>| picked(row, at))
}

/// The fault of a row that is shorter than its schema.
pub open spec fn short_row() -> Fault {
    execution_fault("Row is shorter than its schema"@)
}

pub fn short_row_error() -> (r: DatabaseError)
    ensures
        r@ == short_row(),
{
    DatabaseError::ExecutionError("Row is shorter than its schema".to_owned())
}

/// A relation narrowed to the named columns, in the order of the names.
pub open spec fn projected(input: RelationModel, names: Seq<Seq<char>>) -> Result<
    RelationModel,
    Fault,
> {
    match resolved(names, 0, input.schema, "Unknown column '"@, "' in SELECT list"@) {
        Err(f) => Err(f),
        Ok(at) => if !all_within(input.rows, at) {
            Err(short_row())
        } else {
            Ok(
                RelationModel {
                    schema: SchemaModel {
                        columns: picked_columns(input.schema.columns, at),
                        ..input.schema
                    },
                    rows: picked_rows(input.rows, at),
                },
            )
        },
    }
}

/// Narrows a relation to the named columns. A name that no column has is an
/// error.
pub fn apply_project(input: Relation, columns: &Vec<String>) -> (r: Result<Relation, DatabaseError>)
    ensures
        relation_result(r) == projected(input@, texts(columns@)),
{
    let at = match resolve_columns(columns, &input.schema, "Unknown column '", "' in SELECT list") {
        Ok(at) => at,
        Err(e) => {
            return Err(e);
        },
    };
    let ghost ps = as_ints(at@);
    if !rows_reach(&input.tuples, &at) {
        return Err(short_row_error());
    }
    let mut schema = TableSchema::new(input.schema.table_id, input.schema.name.clone());
    let mut i: usize = 0;
    assert(picked_columns(input.schema@.columns, ps.take(0)) == Seq::<ColumnModel>::empty());
    while i < at.len()
        invariant
            i <= at@.len(),
            ps == as_ints(at@),
            forall|k: int| 0 <= k < at@.len() ==> (#[trigger] at@[k]) < input.schema.columns@.len(),
            schema@ == (SchemaModel {
                columns: picked_columns(input.schema@.columns, ps.take(i as int)),
                ..input.schema@
            }),
        decreases at@.len() - i,
    {
        let ghost before = schema@.columns;
        schema.add_column(input.schema.columns[at[i]].clone());
        proof {
            assert(schema@.columns == before.push(input.schema@.columns[ps[i as int]]));
            assert(schema@.columns == picked_columns(
                input.schema@.columns,
                ps.take(i + 1),
            ));
        }
        i = i + 1;
    }
    assert(ps.take(i as int) == ps);
    let ghost all = rows(input.tuples@);
    let mut tuples: Vec<Tuple> = Vec::new();
    let mut j: usize = 0;
    while j < input.tuples.len()
        invariant
            j <= input.tuples@.len(),
            ps == as_ints(at@),
            all == rows(input.tuples@),
            all_within(all, ps),
            tuples@.len() == j,
            forall|k: int| 0 <= k < j ==> (#[trigger] tuples@[k])@ == picked(all[k], ps),
        decreases input.tuples@.len() - j,
    {
        assert(all[j as int] == input.tuples@[j as int]@);
        let values = pick_values(&input.tuples[j], &at);
        tuples.push(Tuple { values });
        j = j + 1;
    }
    assert(rows(tuples@) == picked_rows(all, ps));
    Ok(Relation { schema, tuples })
}

// ---- sort --------------------------------------------------------------------

/// The columns that sort keys name.
pub open spec fn key_columns(keys: Seq<SortKey>) -> Seq<Seq<char>> {
    keys.map_values(|k: SortKey| k.column)
}

/// Sort keys at their places.
pub open spec fn placed(keys: Seq<SortKey>, at: Seq<int>) -> Seq<Place> {
    Seq::new(keys.len(), |i: int| Place { index: at[i], ascending: keys[i].ascending })
}

/// A relation in the order of sort keys.
pub open spec fn ordered(input: RelationModel, keys: Seq<SortKey>, fl: FloatModel) -> Result<
    RelationModel,
    Fault,
> {
    match resolved(key_columns(keys), 0, input.schema, "Unknown column '"@, "' in ORDER BY"@) {
        Err(f) => Err(f),
        Ok(at) => if !all_within(input.rows, at) {
            Err(short_row())
        } else {
            Ok(
                RelationModel {
                    rows: sorted_rows(
                        input.rows,
                        input.rows.len() as int,
                        placed(keys, at),
                        fl,
                    ),
                    ..input
                },
            )
        },
    }
}

/// Sorts a relation. A key that no column has is an error.
pub fn apply_sort<F: Floats>(input: Relation, keys: &Vec<(String, bool)>, floats: &F) -> (r: Result<
    Relation,
    DatabaseError,
>)
    requires
        floats.sound(),
    ensures
        relation_result(r) == ordered(input@, key_models(keys@), floats.model()),
{
    let ghost ks = key_models(keys@);
    let mut names: Vec<String> = Vec::new();
    let mut i: usize = 0;
    while i < keys.len()
        invariant
            i <= keys@.len(),
            names@.len() == i,
            forall|k: int| 0 <= k < i ==> (#[trigger] names@[k])@ == keys@[k].0@,
        decreases keys@.len() - i,
    {
        names.push(keys[i].0.clone());
        i = i + 1;
    }
    assert(texts(names@) == key_columns(ks));
    let at = match resolve_columns(&names, &input.schema, "Unknown column '", "' in ORDER BY") {
        Ok(at) => at,
        Err(e) => {
            return Err(e);
        },
    };
    let ghost ps = as_ints(at@);
    if !rows_reach(&input.tuples, &at) {
        return Err(short_row_error());
    }
    let mut resolved_keys: Vec<(usize, bool)> = Vec::new();
    let mut j: usize = 0;
    while j < at.len()
        invariant
            j <= at@.len(),
            at@.len() == keys@.len(),
            resolved_keys@.len() == j,
            forall|k: int|
                0 <= k < j ==> (#[trigger] resolved_keys@[k]) == (at@[k], keys@[k].1),
        decreases at@.len() - j,
    {
        resolved_keys.push((at[j], keys[j].1));
        j = j + 1;
    }
    proof {
        assert(places(resolved_keys@) == placed(ks, ps));
        assert forall|k: int| 0 <= k < input.tuples@.len() implies covers(
            (#[trigger] input.tuples@[k])@,
            places(resolved_keys@),
        ) by {
            assert(rows(input.tuples@)[k] == input.tuples@[k]@);
            assert(within(input.tuples@[k]@, ps));
            assert forall|m: int| 0 <= m < placed(ks, ps).len() implies 0 <= (#[trigger] placed(
                ks,
                ps,
            )[m]).index < input.tuples@[k]@.len() by {
                assert(0 <= ps[m] < input.tuples@[k]@.len());
            }
        }
    }
    let tuples = sort_rows(input.tuples, &resolved_keys, floats);
    Ok(Relation { schema: input.schema, tuples })
}

// ---- distinct --------------------------------------------------------------------

/// The rows without those that an earlier row equals, among the first `n`.
/// Floats are equal when their bits are.
pub open spec fn first_occurrences(input: Seq<Seq<Datum>>, n: int) -> Seq<Seq<Datum>>
    decreases n,
{
    if n <= 0 || n > input.len() {
        Seq::empty()
    } else {
        let before = first_occurrences(input, n - 1);
        if before.contains(input[n - 1]) { before } else { before.push(input[n - 1]) }
    }
}

/// Whether two values are the same, floats by their bits.
pub fn same_value(a: &Value, b: &Value) -> (r: bool)
    ensures
        r == (a@ == b@),
{
    match (a, b) {
        (Value::Integer(x), Value::Integer(y)) => *x == *y,
        (Value::Float(x), Value::Float(y)) => x.bits == y.bits,
        (Value::String(x), Value::String(y)) => same(x.as_str(), y.as_str()),
        (Value::Boolean(x), Value::Boolean(y)) => *x == *y,
        (Value::Null, Value::Null) => true,
        _ => false,
    }
}

/// Whether two rows are the same, value by value.
pub fn same_row(a: &Tuple, b: &Tuple) -> (r: bool)
    ensures
        r == (a@ == b@),
{
    if a.values.len() != b.values.len() {
        assert(a@.len() != b@.len());
        return false;
    }
    let mut i: usize = 0;
    while i < a.values.len()
        invariant
            i <= a.values@.len(),
            a.values@.len() == b.values@.len(),
            forall|k: int| 0 <= k < i ==> a@[k] == b@[k],
        decreases a.values@.len() - i,
    {
        if !same_value(&a.values[i], &b.values[i]) {
            assert(a@[i as int] != b@[i as int]);
            return false;
        }
        i = i + 1;
    }
    assert(a@ == b@);
    true
}

/// Keeps the first of equal rows.
pub fn apply_distinct(tuples: Vec<Tuple>) -> (r: Vec<Tuple>)
    ensures
        rows(r@) == first_occurrences(rows(tuples@), tuples@.len() as int),
{
    let ghost all = rows(tuples@);
    let mut out: Vec<Tuple> = Vec::new();
    let mut i: usize = 0;
    assert(rows(out@) == Seq::<Seq<Datum>>::empty());
    while i < tuples.len()
        invariant
            i <= tuples@.len(),
            all == rows(tuples@),
            rows(out@) == first_occurrences(all, i as int),
        decreases tuples@.len() - i,
    {
        assert(all[i as int] == tuples@[i as int]@);
        let ghost kept = rows(out@);
        let mut seen = false;
        let mut j: usize = 0;
        while j < out.len() && !seen
            invariant
                i < tuples@.len(),
                j <= out@.len(),
                kept == rows(out@),
                all[i as int] == tuples@[i as int]@,
                seen ==> kept.contains(all[i as int]),
                !seen ==> forall|k: int| 0 <= k < j ==> #[trigger] kept[k] != all[i as int],
            decreases out@.len() - j,
        {
            assert(kept[j as int] == out@[j as int]@);
            if same_row(&out[j], &tuples[i]) {
                seen = true;
            }
            j = j + 1;
        }
        if !seen {
            assert(!kept.contains(all[i as int]));
            out.push(tuples[i].clone());
            assert(rows(out@) == kept.push(all[i as int]));
        }
        i = i + 1;
    }
    out
}

/// No row is twice in the result, every row of the input is in it, and every
/// row in it is one of the input.
pub proof fn distinct_rows_are_distinct(input: Seq<Seq<Datum>>, n: int)
    requires
        0 <= n <= input.len(),
    ensures
        first_occurrences(input, n).no_duplicates(),
        forall|row: Seq<Datum>|
            #![trigger first_occurrences(input, n).contains(row)]
            first_occurrences(input, n).contains(row) <==> input.take(n).contains(row),
    decreases n,
{
    if n > 0 {
        distinct_rows_are_distinct(input, n - 1);
        let before = first_occurrences(input, n - 1);
        let after = first_occurrences(input, n);
        let row = input[n - 1];
        let shorter = input.take(n - 1);
        let longer = input.take(n);
        assert(longer == shorter.push(row));
        assert forall|x: Seq<Datum>| after.contains(x) <==> #[trigger] longer.contains(x) by {
            if after.contains(x) {
                let k = choose|k: int| 0 <= k < after.len() && after[k] == x;
                if k < before.len() {
                    assert(before[k] == x);
                    assert(before.contains(x));
                    assert(shorter.contains(x));
                    let m = choose|m: int| 0 <= m < shorter.len() && shorter[m] == x;
                    assert(longer[m] == x);
                } else {
                    assert(longer[n - 1] == x);
                }
            }
            if longer.contains(x) {
                let m = choose|m: int| 0 <= m < longer.len() && longer[m] == x;
                if m < n - 1 {
                    assert(shorter[m] == x);
                    assert(shorter.contains(x));
                    assert(before.contains(x));
                    let k = choose|k: int| 0 <= k < before.len() && before[k] == x;
                    assert(after[k] == x);
                } else if !before.contains(row) {
                    assert(after[before.len() as int] == x);
                }
            }
        }
        assert forall|x: Seq<Datum>|
            #![trigger after.contains(x)]
            after.contains(x) <==> input.take(n).contains(x) by {
            assert(after.contains(x) <==> longer.contains(x));
        }
        if !before.contains(row) {
            assert forall|a: int, b: int|
                0 <= a < after.len() && 0 <= b < after.len() && a != b implies after[a]
                != after[b] by {
                if a == before.len() {
                    assert(before[b] == after[b]);
                    assert(before.contains(after[b]));
                } else if b == before.len() {
                    assert(before[a] == after[a]);
                    assert(before.contains(after[a]));
                } else {
                    assert(before[a] == after[a] && before[b] == after[b]);
                }
            }
        }
    } else {
        assert(input.take(0) == Seq::<Seq<Datum>>::empty());
    }
}

// ---- limit --------------------------------------------------------------------

/// The rows after the first `offset`, at most `limit` of them.
pub open spec fn window(input: Seq<Seq<Datum>>, offset: int, limit: int) -> Seq<Seq<Datum>> {
    let from = if offset < input.len() { offset } else { input.len() as int };
    let rest = input.skip(from);
    if limit < rest.len() { rest.take(limit) } else { rest }
}

/// Skips `offset` rows, and keeps at most `limit` of the others.
pub fn apply_limit(tuples: Vec<Tuple>, limit: usize, offset: usize) -> (r: Vec<Tuple>)
    ensures
        rows(r@) == window(rows(tuples@), offset as int, limit as int),
{
    let ghost all = rows(tuples@);
    let mut out: Vec<Tuple> = Vec::new();
    let from: usize = if offset < tuples.len() { offset } else { tuples.len() };
    let mut i: usize = from;
    while i < tuples.len() && i - from < limit
        invariant
            from <= i <= tuples@.len(),
            i - from <= limit,
            all == rows(tuples@),
            rows(out@) == all.subrange(from as int, i as int),
        decreases tuples@.len() - i,
    {
        let ghost before = rows(out@);
        out.push(tuples[i].clone());
        proof {
            assert(rows(out@) == before.push(all[i as int]));
            assert(rows(out@) == all.subrange(from as int, i + 1));
        }
        i = i + 1;
    }
    assert(rows(out@) == window(all, offset as int, limit as int));
    out
}

} // verus!
