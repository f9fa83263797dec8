//! Tables, indexes and statistics: how they come to be, and how indexes keep up
//! with their tables.

use vstd::prelude::*;
use crate::error::{DatabaseError, Fault};
use crate::execution::catalog::{
    highest_id, id_from, table_named, Catalog, Column, ColumnModel, DataType, SchemaModel,
    TableSchema,
};
use crate::execution::changes::unknown_column;
use crate::execution::executor::{index_models, Db, IndexModel, QueryExecutor, TableIndex};
use crate::execution::mvcc_store::id_rows;
use crate::execution::oltp::rows_at;
use crate::execution::operators::{data, rows, Datum, Tuple, Value};
use crate::execution::relation::{execution_error, execution_fault};
use crate::execution::row_codec::bytes::{bytes_row, decode_row};
use crate::execution::row_codec::literals::{boolean_text, value_to_string};
use crate::execution::row_codec::predicate::{widen, widened};
use crate::execution::scan::{decode_rows, decoded_rows, index_place, unknown_table};
use crate::execution::secondary_index::{entered, SecondaryIndex};
use crate::float::{not_a_number, FloatModel, Floats, F64};
use crate::index::dynamic_pgm::no_nan;
use crate::optimizer::cardinality::{
    among_rows, categorical_distribution, counted_rows, lemma_stat_place, numeric_distribution,
    stat_of, with_stat, without_table, ColumnDistribution, Distribution, StatsModel,
};
use crate::sql::parser::{
    column_def_models, ColumnDef, ColumnDefModel, CreateIndexModel, CreateIndexStatement,
    CreateTableModel, CreateTableStatement,
};
use crate::text::{
    contains, decimal, has_part, join2, join5, texts, to_uppercase, unsigned_to_text, uppercase,
};

verus! {

// ---- tables -----------------------------------------------------------------------------

/// The type of a column, by what the words of its definition hold.
pub open spec fn ddl_type(raw: Seq<char>) -> DataType {
    let upper = uppercase(raw);
    if has_part(upper, "BOOL"@) {
        DataType::Boolean
    } else if has_part(upper, "TIMESTAMP"@) || has_part(upper, "DATE"@) {
        DataType::Timestamp
    } else if has_part(upper, "INT"@) {
        DataType::Integer
    } else if has_part(upper, "FLOAT"@) || has_part(upper, "DOUBLE"@) || has_part(
        upper,
        "DECIMAL"@,
    ) || has_part(upper, "NUMERIC"@) || has_part(upper, "REAL"@) {
        DataType::Float
    } else {
        DataType::String
    }
}

/// The type of a column, by the words of its definition.
pub fn map_ddl_type(raw: &str) -> (r: DataType)
    ensures
        r == ddl_type(raw@),
{
    let upper_text = to_uppercase(raw);
    let upper = upper_text.as_str();
    if contains(upper, "BOOL") {
        DataType::Boolean
    } else if contains(upper, "TIMESTAMP") || contains(upper, "DATE") {
        DataType::Timestamp
    } else if contains(upper, "INT") {
        DataType::Integer
    } else if contains(upper, "FLOAT") || contains(upper, "DOUBLE") || contains(upper, "DECIMAL")
        || contains(upper, "NUMERIC") || contains(upper, "REAL") {
        DataType::Float
    } else {
        DataType::String
    }
}

/// The columns that are defined, numbered from one on.
pub open spec fn defined_columns(defs: Seq<ColumnDefModel>) -> Seq<ColumnModel> {
    Seq::new(
        defs.len(),
        |i: int|
            ColumnModel {
                id: (i + 1) as u32,
                name: defs[i].name,
                data_type: ddl_type(defs[i].data_type),
                nullable: defs[i].nullable,
                primary_key: defs[i].primary_key,
            },
    )
}

/// The schema of a new table. Its id is the next after the highest.
pub open spec fn new_schema(catalog: Seq<SchemaModel>, q: CreateTableModel) -> Result<
    SchemaModel,
    Fault,
> {
    let top = highest_id(catalog, catalog.len() as int);
    if table_named(catalog, q.name) is Some {
        Err(execution_fault("Table '"@ + q.name + "' already exists"@))
    } else if top >= u32::MAX {
        Err(execution_fault("No table id is left"@))
    } else {
        Ok(
            SchemaModel {
                table_id: (top + 1) as u32,
                name: q.name,
                columns: defined_columns(q.columns),
            },
        )
    }
}

fn column_number(i: usize) -> (r: u32)
    requires
        i < usize::MAX,
    ensures
        r == (i + 1) as u32,
{
    #[verifier::truncate]
    ((i + 1) as u32)
}

/// The schema of a new table.
pub fn schema_for(catalog: &Catalog, create: &CreateTableStatement) -> (r: Result<
    TableSchema,
    DatabaseError,
>)
    ensures
        match r {
            Ok(s) => new_schema(catalog@, create@) == Ok::<SchemaModel, Fault>(s@),
            Err(e) => new_schema(catalog@, create@) == Err::<SchemaModel, Fault>(e@),
        },
{
    if catalog.get_table(create.name.as_str()).is_some() {
        return Err(execution_error("Table '", create.name.as_str(), "' already exists"));
    }
    let top: u32 = catalog.max_table_id();
    if top == u32::MAX {
        return Err(DatabaseError::ExecutionError("No table id is left".to_owned()));
    }
    let ghost defs = create@.columns;
    let ghost want = defined_columns(defs);
    let table_id: u32 = top + 1;
    let mut schema = TableSchema::new(table_id, create.name.clone());
    let mut i: usize = 0;
    assert(want.take(0) =~= Seq::<ColumnModel>::empty());
    while i < create.columns.len()
        invariant
            i <= create.columns@.len(),
            defs == column_def_models(create.columns@),
            want == defined_columns(defs),
            schema@ == (SchemaModel {
                table_id,
                name: create.name@,
                columns: want.take(i as int),
            }),
        decreases create.columns@.len() - i,
    {
        let def: &ColumnDef = &create.columns[i];
        assert(defs[i as int] == def@);
        schema.add_column(
            Column {
                id: column_number(i),
                name: def.name.clone(),
                data_type: map_ddl_type(def.data_type.as_str()),
                nullable: def.nullable,
                primary_key: def.primary_key,
            },
        );
        assert(want.take(i + 1) =~= want.take(i as int).push(want[i as int]));
        i = i + 1;
    }
    assert(want.take(i as int) =~= want);
    Ok(schema)
}

// ---- indexes ----------------------------------------------------------------------------

/// The table and the column that a new index is over.
pub open spec fn index_target(catalog: Seq<SchemaModel>, q: CreateIndexModel) -> Result<u64, Fault> {
    match table_named(catalog, q.table) {
        None => Err(unknown_table(q.table)),
        Some(s) => if s.position(q.column) is None {
            Err(
                execution_fault(
                    "Unknown column '"@ + q.column + "' on table '"@ + q.table + "'"@,
                ),
            )
        } else {
            Ok(s.table_id as u64)
        },
    }
}

/// The entries of a column of some stored rows, from the `i`-th on, put among
/// `done`.
pub open spec fn column_entries(
    stored: Seq<(u64, Seq<u8>)>,
    c: int,
    i: int,
    done: Seq<(Datum, Seq<u64>)>,
) -> Seq<(Datum, Seq<u64>)>
    decreases stored.len() - i,
{
    if 0 <= i < stored.len() {
        match bytes_row(stored[i].1) {
            Some(row) => if 0 <= c < row.len() {
                column_entries(stored, c, i + 1, entered(done, row[c], stored[i].0))
            } else {
                column_entries(stored, c, i + 1, done)
            },
            None => column_entries(stored, c, i + 1, done),
        }
    } else {
        done
    }
}

/// An index over the rows that a table has by now.
pub open spec fn built_index(db: Db, table_id: u64, column: Seq<char>) -> Result<IndexModel, Fault> {
    match id_from(db.catalog, table_id as u32, 0) {
        None => Err(execution_fault("Unknown table id "@ + decimal(table_id as int))),
        Some(t) => match db.catalog[t].position(column) {
            None => Err(unknown_column(column)),
            Some(c) => Ok(
                IndexModel {
                    table_id,
                    column,
                    entries: column_entries(
                        rows_at(db.engine.tables, table_id, db.engine.clock),
                        c,
                        0,
                        Seq::empty(),
                    ),
                },
            ),
        },
    }
}

/// The indexes with one more, which takes the place of one over the same column.
pub open spec fn with_index(indexes: Seq<IndexModel>, m: IndexModel) -> Seq<IndexModel> {
    match index_place(indexes, m.table_id, m.column, 0) {
        Some(i) => indexes.update(i, m),
        None => indexes.push(m),
    }
}

/// The indexes after a row got its values: of each column from the `c`-th on that
/// has an index, the value is entered.
pub open spec fn row_indexed(
    indexes: Seq<IndexModel>,
    s: SchemaModel,
    row_id: u64,
    row: Seq<Datum>,
    c: int,
) -> Seq<IndexModel>
    decreases s.columns.len() - c,
{
    if 0 <= c < s.columns.len() {
        let next = match index_place(indexes, s.table_id as u64, s.columns[c].name, 0) {
            Some(i) => if c < row.len() {
                indexes.update(
                    i,
                    IndexModel {
                        entries: entered(indexes[i].entries, row[c], row_id),
                        ..indexes[i]
                    },
                )
            } else {
                indexes
            },
            None => indexes,
        };
        row_indexed(next, s, row_id, row, c + 1)
    } else {
        indexes
    }
}

/// The indexes after the first `n` of some rows got their values.
pub open spec fn rows_indexed(
    indexes: Seq<IndexModel>,
    s: SchemaModel,
    changed: Seq<(u64, Seq<Datum>)>,
    n: int,
) -> Seq<IndexModel>
    decreases n,
{
    if n <= 0 || n > changed.len() {
        indexes
    } else {
        row_indexed(
            rows_indexed(indexes, s, changed, n - 1),
            s,
            changed[n - 1].0,
            changed[n - 1].1,
            0,
        )
    }
}

fn index_rows(stored: &Vec<(u64, Vec<u8>)>, c: usize) -> (r: SecondaryIndex)
    ensures
        r.wf(),
        r@ == column_entries(id_rows(stored@), c as int, 0, Seq::empty()),
{
    let ghost all = id_rows(stored@);
    let mut index = SecondaryIndex::new();
    let mut i: usize = 0;
    while i < stored.len()
        invariant
            i <= stored@.len(),
            all == id_rows(stored@),
            index.wf(),
            column_entries(all, c as int, 0, Seq::empty()) == column_entries(
                all,
                c as int,
                i as int,
                index@,
            ),
        decreases stored@.len() - i,
    {
        assert(all[i as int] == (stored@[i as int].0, stored@[i as int].1@));
        if let Some(row) = decode_row(stored[i].1.as_slice()) {
            assert(row@.len() == row.values@.len());
            if c < row.values.len() {
                assert(row@[c as int] == row.values@[c as int]@);
                index.insert(row.values[c].clone(), stored[i].0);
            }
        }
        i = i + 1;
    }
    index
}

fn narrow_id(id: u64) -> (r: u32)
    ensures
        r == id as u32,
{
    #[verifier::truncate]
    (id as u32)
}

impl QueryExecutor {
    /// The table that a new index is over.
    pub fn index_table(&self, create: &CreateIndexStatement) -> (r: Result<u64, DatabaseError>)
        ensures
            match r {
                Ok(id) => index_target(self@.catalog, create@) == Ok::<u64, Fault>(id),
                Err(e) => index_target(self@.catalog, create@) == Err::<u64, Fault>(e@),
            },
    {
        let schema = match self.schema_of(create.table.as_str()) {
            Ok(s) => s,
            Err(e) => {
                return Err(e);
            },
        };
        if schema.position(create.column.as_str()).is_none() {
            return Err(
                DatabaseError::ExecutionError(
                    join5(
                        "Unknown column '",
                        create.column.as_str(),
                        "' on table '",
                        create.table.as_str(),
                        "'",
                    ),
                ),
            );
        }
        Ok(schema.table_id as u64)
    }

    /// Builds the index over a column of a table anew, from the rows that the table
    /// has by now.
    pub fn rebuild_secondary_index(&mut self, table_id: u64, column: &str) -> (r: Result<
        (),
        DatabaseError,
    >)
        requires
            old(self).wf(),
        ensures
            final(self).wf(),
            match built_index(old(self)@, table_id, column@) {
                Ok(m) => r is Ok && final(self)@ == (Db {
                    indexes: with_index(old(self)@.indexes, m),
                    ..old(self)@
                }),
                Err(f) => r matches Err(e) && e@ == f && final(self)@ == old(self)@,
            },
    {
        let ghost db = self@;
        let c: usize = match self.catalog.get_table_by_id(narrow_id(table_id)) {
            None => {
                let n = unsigned_to_text(table_id);
                return Err(
                    DatabaseError::ExecutionError(join2("Unknown table id ", n.as_str())),
                );
            },
            Some(schema) => match schema.position(column) {
                Some(c) => c,
                None => {
                    return Err(execution_error("Unknown column '", column, "'"));
                },
            },
        };
        let stored = self.oltp.scan_committed(table_id);
        let index = index_rows(&stored, c);
        let entry = TableIndex { table_id, column: column.to_owned(), index };
        let ghost m = entry@;
        match self.find_index(table_id, column) {
            Some(i) => {
                self.secondary_indexes.set(i, entry);
                assert(self@.indexes =~= db.indexes.update(i as int, m));
            },
            None => {
                self.secondary_indexes.push(entry);
                assert(self@.indexes =~= db.indexes.push(m));
            },
        }
        Ok(())
    }

    fn enter_value(&mut self, at: usize, value: Value, row_id: u64)
        requires
            old(self).wf(),
            at < old(self).secondary_indexes@.len(),
        ensures
            final(self).wf(),
            final(self).secondary_indexes@.len() == old(self).secondary_indexes@.len(),
            final(self)@ == (Db {
                indexes: old(self)@.indexes.update(
                    at as int,
                    IndexModel {
                        entries: entered(
                            old(self)@.indexes[at as int].entries,
                            value@,
                            row_id,
                        ),
                        ..old(self)@.indexes[at as int]
                    },
                ),
                ..old(self)@
            }),
    {
        let ghost before = self.secondary_indexes@;
        let mut entry = self.secondary_indexes.remove(at);
        entry.index.insert(value, row_id);
        let ghost changed = entry;
        self.secondary_indexes.insert(at, entry);
        assert(self.secondary_indexes@ =~= before.update(at as int, changed));
        assert(self@.indexes =~= index_models(before).update(at as int, changed@));
    }

    /// Enters the values of a row in the indexes over its columns.
    pub fn index_row_in_secondary_indexes(
        &mut self,
        schema: &TableSchema,
        row_id: u64,
        row: &Vec<Value>,
    )
        requires
            old(self).wf(),
        ensures
            final(self).wf(),
            final(self)@ == (Db {
                indexes: row_indexed(old(self)@.indexes, schema@, row_id, data(row@), 0),
                ..old(self)@
            }),
    {
        let ghost db = self@;
        let ghost values = data(row@);
        let table_id: u64 = schema.table_id as u64;
        let mut c: usize = 0;
        while c < schema.columns.len()
            invariant
                c <= schema.columns@.len(),
                self.wf(),
                values == data(row@),
                table_id == schema@.table_id as u64,
                self@ == (Db { indexes: self@.indexes, ..db }),
                row_indexed(db.indexes, schema@, row_id, values, 0) == row_indexed(
                    self@.indexes,
                    schema@,
                    row_id,
                    values,
                    c as int,
                ),
            decreases schema.columns@.len() - c,
        {
            assert(schema@.columns[c as int] == schema.columns@[c as int]@);
            if let Some(at) = self.find_index(table_id, schema.columns[c].name.as_str()) {
                if c < row.len() {
                    assert(values[c as int] == row@[c as int]@);
                    self.enter_value(at, row[c].clone(), row_id);
                }
            }
            c = c + 1;
        }
    }
}

// ---- statistics -------------------------------------------------------------------------

/// How far the index over the numbers of a column may be off.
pub const ANALYZE_PGM_ERROR_BOUND: usize = 16;

/// The number that a value of a row is.
pub open spec fn number_in(row: Seq<Datum>, c: int, fl: FloatModel) -> Option<F64> {
    if 0 <= c < row.len() {
        match row[c] {
            Datum::Integer(i) => Some(F64 { bits: widened(i, fl) }),
            Datum::Float(x) => Some(F64 { bits: x }),
            _ => None,
        }
    } else {
        None
    }
}

/// The numbers of a column, of the rows from the `i`-th on.
pub open spec fn column_numbers(
    input: Seq<Seq<Datum>>,
    c: int,
    i: int,
    fl: FloatModel,
) -> Seq<F64>
    decreases input.len() - i,
{
    if 0 <= i < input.len() {
        let rest = column_numbers(input, c, i + 1, fl);
        match number_in(input[i], c, fl) {
            Some(x) => seq![x] + rest,
            None => rest,
        }
    } else {
        Seq::empty()
    }
}

/// The text that a value of a row is.
pub open spec fn text_in(row: Seq<Datum>, c: int) -> Option<Seq<char>> {
    if 0 <= c < row.len() {
        match row[c] {
            Datum::Text(s) => Some(s),
            Datum::Boolean(b) => Some(boolean_text(b)),
            _ => None,
        }
    } else {
        None
    }
}

/// The texts of a column, of the rows from the `i`-th on.
pub open spec fn column_words(input: Seq<Seq<Datum>>, c: int, i: int) -> Seq<Seq<char>>
    decreases input.len() - i,
{
    if 0 <= i < input.len() {
        let rest = column_words(input, c, i + 1);
        match text_in(input[i], c) {
            Some(s) => seq![s] + rest,
            None => rest,
        }
    } else {
        Seq::empty()
    }
}

/// Whether the values of a column of this type are numbers.
pub open spec fn is_numeric(t: DataType) -> bool {
    t == DataType::Integer || t == DataType::Float || t == DataType::Timestamp
}

/// The fault of a column with a value that is not a number.
pub open spec fn unordered_column(name: Seq<char>) -> Fault {
    execution_fault("Column '"@ + name + "' holds a value that is not a number"@)
}

/// The distribution of a column among the rows of its table, where it has a value.
pub open spec fn column_distribution(
    column: ColumnModel,
    input: Seq<Seq<Datum>>,
    c: int,
    fl: FloatModel,
) -> Result<Option<Distribution>, Fault> {
    if is_numeric(column.data_type) {
        let values = column_numbers(input, c, 0, fl);
        if values.len() == 0 {
            Ok(None)
        } else if !no_nan(values) {
            Err(unordered_column(column.name))
        } else {
            Ok(
                Some(
                    among_rows(
                        numeric_distribution(values, ANALYZE_PGM_ERROR_BOUND, fl),
                        input.len() as usize,
                    ),
                ),
            )
        }
    } else {
        let values = column_words(input, c, 0);
        if values.len() == 0 {
            Ok(None)
        } else {
            Ok(Some(among_rows(categorical_distribution(values), input.len() as usize)))
        }
    }
}

/// What is known after the columns of a table from the `c`-th on have been looked
/// at.
pub open spec fn columns_analyzed(
    stats: StatsModel,
    table: Seq<char>,
    s: SchemaModel,
    input: Seq<Seq<Datum>>,
    c: int,
    fl: FloatModel,
) -> Result<StatsModel, Fault>
    decreases s.columns.len() - c,
{
    if 0 <= c < s.columns.len() {
        match column_distribution(s.columns[c], input, c, fl) {
            Err(f) => Err(f),
            Ok(None) => columns_analyzed(stats, table, s, input, c + 1, fl),
            Ok(Some(d)) => columns_analyzed(
                with_stat(stats, table, s.columns[c].name, d),
                table,
                s,
                input,
                c + 1,
                fl,
            ),
        }
    } else {
        Ok(stats)
    }
}

/// What is known after a table has been looked at: what was known of it before is
/// forgotten.
pub open spec fn analyzed(db: Db, table: Seq<char>, fl: FloatModel) -> Result<StatsModel, Fault> {
    match table_named(db.catalog, table) {
        None => Err(unknown_table(table)),
        Some(s) => columns_analyzed(
            without_table(db.stats, table, 0),
            table,
            s,
            decoded_rows(rows_at(db.engine.tables, s.table_id as u64, db.engine.clock), 0),
            0,
            fl,
        ),
    }
}

fn numbers_of<F: Floats>(tuples: &Vec<Tuple>, c: usize, floats: &F) -> (r: Vec<F64>)
    requires
        floats.sound(),
    ensures
        r@ == column_numbers(rows(tuples@), c as int, 0, floats.model()),
{
    let ghost all = rows(tuples@);
    let ghost fl = floats.model();
    let mut out: Vec<F64> = Vec::new();
    let mut i: usize = 0;
    assert(out@ + column_numbers(all, c as int, 0, fl) =~= column_numbers(all, c as int, 0, fl));
    while i < tuples.len()
        invariant
            i <= tuples@.len(),
            floats.sound(),
            all == rows(tuples@),
            fl == floats.model(),
            column_numbers(all, c as int, 0, fl) == out@ + column_numbers(
                all,
                c as int,
                i as int,
                fl,
            ),
        decreases tuples@.len() - i,
    {
        let row = &tuples[i];
        assert(all[i as int] == row@);
        assert(row@.len() == row.values@.len());
        let ghost before = out@;
        let ghost rest = column_numbers(all, c as int, i + 1, fl);
        if c < row.values.len() {
            assert(row@[c as int] == row.values@[c as int]@);
            let x: Option<F64> = match &row.values[c] {
                Value::Integer(n) => Some(widen(*n, floats)),
                Value::Float(x) => Some(*x),
                _ => None,
            };
            if let Some(x) = x {
                out.push(x);
                assert(before + (seq![x] + rest) =~= out@ + rest);
            }
        }
        i = i + 1;
    }
    assert(out@ + Seq::<F64>::empty() =~= out@);
    out
}

fn words_of<F: Floats>(tuples: &Vec<Tuple>, c: usize, floats: &F) -> (r: Vec<String>)
    requires
        floats.sound(),
    ensures
        texts(r@) == column_words(rows(tuples@), c as int, 0),
{
    let ghost all = rows(tuples@);
    let mut out: Vec<String> = Vec::new();
    let mut i: usize = 0;
    assert(texts(out@) + column_words(all, c as int, 0) =~= column_words(all, c as int, 0));
    while i < tuples.len()
        invariant
            i <= tuples@.len(),
            floats.sound(),
            all == rows(tuples@),
            column_words(all, c as int, 0) == texts(out@) + column_words(
                all,
                c as int,
                i as int,
            ),
        decreases tuples@.len() - i,
    {
        let row = &tuples[i];
        assert(all[i as int] == row@);
        assert(row@.len() == row.values@.len());
        let ghost before = texts(out@);
        let ghost rest = column_words(all, c as int, i + 1);
        if c < row.values.len() {
            assert(row@[c as int] == row.values@[c as int]@);
            let s: Option<String> = match &row.values[c] {
                Value::String(s) => Some(s.clone()),
                Value::Boolean(_) => Some(value_to_string(&row.values[c], floats)),
                _ => None,
            };
            if let Some(s) = s {
                let ghost word = s@;
                out.push(s);
                assert(texts(out@) =~= before.push(word));
                assert(before + (seq![word] + rest) =~= texts(out@) + rest);
            }
        }
        i = i + 1;
    }
    assert(texts(out@) + Seq::<Seq<char>>::empty() =~= texts(out@));
    out
}

fn all_ordered(values: &Vec<F64>) -> (r: bool)
    ensures
        r == no_nan(values@),
{
    let mut i: usize = 0;
    while i < values.len()
        invariant
            i <= values@.len(),
            forall|k: int| 0 <= k < i ==> !not_a_number((#[trigger] values@[k]).bits),
        decreases values@.len() - i,
    {
        if values[i].is_nan() {
            assert(not_a_number(values@[i as int].bits));
            return false;
        }
        i = i + 1;
    }
    true
}

fn distribution_of<F: Floats>(column: &Column, tuples: &Vec<Tuple>, c: usize, floats: &F) -> (r:
    Result<Option<ColumnDistribution>, DatabaseError>)
    requires
        floats.sound(),
    ensures
        ({
            let want = column_distribution(
                column@,
                rows(tuples@),
                c as int,
                floats.model(),
            );
            match r {
                Ok(Some(d)) => d.wf() && want == Ok::<Option<Distribution>, Fault>(Some(d@)),
                Ok(None) => want == Ok::<Option<Distribution>, Fault>(None),
                Err(e) => want == Err::<Option<Distribution>, Fault>(e@),
            }
        }),
{
    match column.data_type {
        DataType::Integer | DataType::Float | DataType::Timestamp => {
            let values = numbers_of(tuples, c, floats);
            if values.len() == 0 {
                Ok(None)
            } else if !all_ordered(&values) {
                Err(
                    execution_error(
                        "Column '",
                        column.name.as_str(),
                        "' holds a value that is not a number",
                    ),
                )
            } else {
                Ok(
                    Some(
                        ColumnDistribution::build_numeric(
                            values,
                            ANALYZE_PGM_ERROR_BOUND,
                            floats,
                        ).among(tuples.len()),
                    ),
                )
            }
        },
        DataType::String | DataType::Boolean => {
            let values = words_of(tuples, c, floats);
            assert(texts(values@).len() == values@.len());
            if values.len() == 0 {
                Ok(None)
            } else {
                Ok(Some(ColumnDistribution::build_categorical(values).among(tuples.len())))
            }
        },
    }
}

/// The distributions of some columns, each with the column's name.
pub open spec fn noted(
    stats: StatsModel,
    table: Seq<char>,
    fresh: Seq<(Seq<char>, Distribution)>,
    n: int,
) -> StatsModel
    decreases n,
{
    if n <= 0 || n > fresh.len() {
        stats
    } else {
        with_stat(
            noted(stats, table, fresh, n - 1),
            table,
            fresh[n - 1].0,
            fresh[n - 1].1,
        )
    }
}

spec fn fresh_models(v: Seq<(String, ColumnDistribution)>) -> Seq<(Seq<char>, Distribution)> {
    v.map_values(|e: (String, ColumnDistribution)| (e.0@, e.1@))
}

proof fn lemma_noted_push(
    stats: StatsModel,
    table: Seq<char>,
    fresh: Seq<(Seq<char>, Distribution)>,
    e: (Seq<char>, Distribution),
    n: int,
)
    requires
        0 <= n <= fresh.len(),
    ensures
        noted(stats, table, fresh.push(e), n) == noted(stats, table, fresh, n),
    decreases n,
{
    if n > 0 {
        lemma_noted_push(stats, table, fresh, e, n - 1);
    }
}

impl QueryExecutor {
    /// Looks at the rows that a table has by now, and notes the distributions of its
    /// columns in place of what was known of them. Nothing is noted where a column
    /// of numbers holds a value that is not a number.
    pub fn execute_analyze<F: Floats>(&mut self, table: &str, floats: &F) -> (r: Result<
        (),
        DatabaseError,
    >)
        requires
            old(self).wf(),
            floats.sound(),
        ensures
            final(self).wf(),
            match analyzed(old(self)@, table@, floats.model()) {
                Ok(stats) => r is Ok && final(self)@ == (Db { stats, ..old(self)@ }),
                Err(f) => r matches Err(e) && e@ == f && final(self)@ == old(self)@,
            },
    {
        let schema = match self.schema_of(table) {
            Ok(s) => s,
            Err(e) => {
                return Err(e);
            },
        };
        let ghost db = self@;
        let ghost fl = floats.model();
        let stored = self.oltp.scan_committed(schema.table_id as u64);
        let tuples = decode_rows(&stored);
        let ghost input = rows(tuples@);
        let ghost start = without_table(db.stats, table@, 0);
        let ghost want = columns_analyzed(start, table@, schema@, input, 0, fl);
        let mut fresh: Vec<(String, ColumnDistribution)> = Vec::new();
        let mut c: usize = 0;
        assert(fresh_models(fresh@) =~= Seq::<(Seq<char>, Distribution)>::empty());
        while c < schema.columns.len()
            invariant
                c <= schema.columns@.len(),
                floats.sound(),
                fl == floats.model(),
                self.wf(),
                self@ == db,
                db == old(self)@,
                want == analyzed(db, table@, fl),
                input == rows(tuples@),
                forall|i: int| 0 <= i < fresh@.len() ==> (#[trigger] fresh@[i]).1.wf(),
                want == columns_analyzed(
                    noted(start, table@, fresh_models(fresh@), fresh@.len() as int),
                    table@,
                    schema@,
                    input,
                    c as int,
                    fl,
                ),
            decreases schema.columns@.len() - c,
        {
            assert(schema@.columns[c as int] == schema.columns@[c as int]@);
            match distribution_of(&schema.columns[c], &tuples, c, floats) {
                Err(e) => {
                    return Err(e);
                },
                Ok(None) => {},
                Ok(Some(d)) => {
                    let ghost before = fresh_models(fresh@);
                    let ghost m = (schema.columns@[c as int].name@, d@);
                    fresh.push((schema.columns[c].name.clone(), d));
                    proof {
                        assert(fresh_models(fresh@) =~= before.push(m));
                        lemma_noted_push(start, table@, before, m, before.len() as int);
                    }
                },
            }
            c = c + 1;
        }
        self.stats.forget(table);
        let ghost all = fresh@;
        let ghost models = fresh_models(all);
        let mut given: usize = 0;
        let mut rest: Vec<(String, ColumnDistribution)> = Vec::new();
        let mut left: usize = fresh.len();
        while left > 0
            invariant
                left == fresh@.len(),
                left <= all.len(),
                fresh@ == all.take(left as int),
                rest@ == all.skip(left as int).reverse(),
            decreases left,
        {
            let e = fresh.pop().unwrap();
            left = left - 1;
            let ghost before = rest@;
            rest.push(e);
            assert(all.skip(left as int).reverse() =~= before.push(e));
        }
        assert(all.skip(0) =~= all);
        while rest.len() > 0
            invariant
                given + rest@.len() == all.len(),
                all.len() <= usize::MAX,
                rest@ == all.skip(given as int).reverse(),
                models == fresh_models(all),
                forall|i: int| 0 <= i < all.len() ==> (#[trigger] all[i]).1.wf(),
                self.wf(),
                self@ == (Db { stats: self.stats@, ..db }),
                self.stats@ == noted(start, table@, models, given as int),
            decreases rest@.len(),
        {
            let ghost before = rest@;
            let (name, d) = rest.pop().unwrap();
            assert(before.last() == all[given as int]);
            assert(models[given as int] == (name@, d@));
            self.stats.record(table.to_owned(), name, d);
            given = given + 1;
            assert(all.skip(given as int).reverse() =~= rest@);
        }
        Ok(())
    }
}

/// Whether everything that is known of a table's columns counts this many rows.
spec fn counts_rows(stats: StatsModel, table: Seq<char>, n: usize) -> bool {
    forall|i: int|
        0 <= i < stats.len() && (#[trigger] stats[i]).0 == table ==> counted_rows(stats[i].2) == n
}

proof fn lemma_forgotten(stats: StatsModel, table: Seq<char>, i: int)
    requires
        0 <= i,
    ensures
        forall|k: int|
            0 <= k < without_table(stats, table, i).len() ==> (#[trigger] without_table(
                stats,
                table,
                i,
            )[k]).0 != table,
    decreases stats.len() - i,
{
    if i < stats.len() {
        lemma_forgotten(stats, table, i + 1);
        let rest = without_table(stats, table, i + 1);
        let all = without_table(stats, table, i);
        assert forall|k: int| 0 <= k < all.len() implies (#[trigger] all[k]).0 != table by {
            if stats[i].0 != table && k > 0 {
                assert(all[k] == rest[k - 1]);
            }
        }
    }
}

proof fn lemma_columns_count(
    stats: StatsModel,
    table: Seq<char>,
    s: SchemaModel,
    input: Seq<Seq<Datum>>,
    c: int,
    fl: FloatModel,
)
    requires
        0 <= c,
        counts_rows(stats, table, input.len() as usize),
    ensures
        columns_analyzed(stats, table, s, input, c, fl) matches Ok(known) ==> counts_rows(
            known,
            table,
            input.len() as usize,
        ),
    decreases s.columns.len() - c,
{
    if c < s.columns.len() {
        match column_distribution(s.columns[c], input, c, fl) {
            Err(_) => {},
            Ok(None) => {
                lemma_columns_count(stats, table, s, input, c + 1, fl);
            },
            Ok(Some(d)) => {
                let next = with_stat(stats, table, s.columns[c].name, d);
                lemma_stat_place(stats, table, s.columns[c].name, 0);
                assert forall|i: int| 0 <= i < next.len() && (#[trigger] next[i]).0
                    == table implies counted_rows(next[i].2) == input.len() as usize by {
                    if next[i] != (table, s.columns[c].name, d) {
                        assert(next[i] == stats[i]);
                    }
                }
                lemma_columns_count(next, table, s, input, c + 1, fl);
            },
        }
    }
}

/// What is noted of a column when its table is looked at counts every row of the table,
/// those without a value in the column included.
pub proof fn a_noted_column_counts_every_row(
    db: Db,
    table: Seq<char>,
    column: Seq<char>,
    fl: FloatModel,
)
    requires
        analyzed(db, table, fl) matches Ok(stats) && stat_of(stats, table, column) is Some,
    ensures
        ({
            let s = table_named(db.catalog, table)->0;
            let stored = rows_at(db.engine.tables, s.table_id as u64, db.engine.clock);
            counted_rows(stat_of(analyzed(db, table, fl)->Ok_0, table, column)->0)
                == decoded_rows(stored, 0).len() as usize
        }),
{
    let s = table_named(db.catalog, table)->0;
    let input = decoded_rows(rows_at(db.engine.tables, s.table_id as u64, db.engine.clock), 0);
    let start = without_table(db.stats, table, 0);
    lemma_forgotten(db.stats, table, 0);
    lemma_columns_count(start, table, s, input, 0, fl);
    let stats = analyzed(db, table, fl)->Ok_0;
    lemma_stat_place(stats, table, column, 0);
}

} // verus!
