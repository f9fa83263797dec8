//! What defining a table and looking at its columns leave behind.

use vstd::prelude::*;
use crate::execution::catalog::{
    highest_id_bounds, id_place, registered, table_from, table_named, DataType, SchemaModel,
};
use crate::execution::definitions::{
    analyzed, column_distribution, column_numbers, column_words, columns_analyzed, ddl_type,
    index_target, new_schema, ANALYZE_PGM_ERROR_BOUND,
};
use crate::execution::executor::Db;
use crate::execution::oltp::rows_at;
use crate::execution::operators::Datum;
use crate::execution::scan::decoded_rows;
use crate::float::{FloatModel, FloatOp, F64};
use crate::optimizer::cardinality::{
    a_noted_column_is_found, among_rows, categorical_distribution, numeric_distribution, stat_of,
    with_stat, StatsModel,
};
use crate::sql::parser::{CreateIndexModel, CreateTableModel};
use crate::text::{has_part, uppercase};

verus! {

/// A new table has the name and the columns that are asked for, in their order, under a
/// number that no table has yet. A name that is taken is refused.
pub proof fn a_new_table_has_its_columns(
    catalog: Seq<SchemaModel>,
    q: CreateTableModel,
    i: int,
    t: int,
)
    requires
        q.columns.len() < u32::MAX,
    ensures
        table_named(catalog, q.name) is Some ==> new_schema(catalog, q) is Err,
        new_schema(catalog, q) matches Ok(s) ==> {
            &&& s.name == q.name
            &&& s.columns.len() == q.columns.len()
            &&& 0 <= t < catalog.len() ==> catalog[t].table_id != s.table_id
            &&& 0 <= i < s.columns.len() ==> {
                let c = s.columns[i];
                let d = q.columns[i];
                &&& c.id == i + 1
                &&& c.name == d.name
                &&& c.data_type == ddl_type(d.data_type)
                &&& c.nullable == d.nullable
                &&& c.primary_key == d.primary_key
            }
        },
{
    highest_id_bounds(catalog, catalog.len() as int);
}

proof fn lemma_table_place(tables: Seq<SchemaModel>, name: Seq<char>, from: int)
    requires
        0 <= from <= tables.len(),
    ensures
        match table_from(tables, name, from) {
            Some(i) => {
                &&& from <= i < tables.len()
                &&& tables[i].name == name
                &&& forall|k: int| from <= k < i ==> (#[trigger] tables[k]).name != name
            },
            None => forall|k: int| from <= k < tables.len() ==> (#[trigger] tables[k]).name != name,
        },
    decreases tables.len() - from,
{
    if from < tables.len() && tables[from].name != name {
        lemma_table_place(tables, name, from + 1);
    }
}

/// A table that has been defined is found by its name, and so are the others as before.
pub proof fn a_defined_table_is_found(
    catalog: Seq<SchemaModel>,
    q: CreateTableModel,
    other: Seq<char>,
)
    requires
        new_schema(catalog, q) is Ok,
    ensures
        ({
            let s = new_schema(catalog, q)->Ok_0;
            &&& table_named(registered(catalog, s), q.name) == Some(s)
            &&& other != q.name ==> table_named(registered(catalog, s), other) == table_named(
                catalog,
                other,
            )
        }),
{
    let s = new_schema(catalog, q)->Ok_0;
    highest_id_bounds(catalog, catalog.len() as int);
    id_place(catalog, s.table_id, 0);
    let more = registered(catalog, s);
    assert(more == catalog.push(s));
    lemma_table_place(catalog, q.name, 0);
    lemma_table_place(more, q.name, 0);
    lemma_table_place(catalog, other, 0);
    lemma_table_place(more, other, 0);
    let n = catalog.len() as int;
    assert(more[n] == s);
    assert forall|k: int| 0 <= k < n implies #[trigger] more[k] == catalog[k] by {}
    match table_from(more, q.name, 0) {
        Some(i) => {
            if i < n {
                assert(more[i] == catalog[i]);
            }
        },
        None => {
            assert(more[n].name == q.name);
        },
    }
    if other != q.name {
        match (table_from(more, other, 0), table_from(catalog, other, 0)) {
            (Some(i), Some(j)) => {
                if i < j {
                    assert(catalog[i].name == other);
                }
                if j < i {
                    assert(more[j].name == other);
                }
            },
            (Some(i), None) => {
                assert(catalog[i].name == other);
            },
            (None, Some(j)) => {
                assert(more[j].name == other);
            },
            (None, None) => {},
        }
    }
}

/// An index is made of a column that its table has.
pub proof fn an_index_is_of_a_known_column(catalog: Seq<SchemaModel>, q: CreateIndexModel)
    ensures
        match (index_target(catalog, q), table_named(catalog, q.table)) {
            (Ok(id), Some(s)) => id == s.table_id && s.position(q.column) is Some,
            (Ok(_), None) => false,
            (Err(_), Some(s)) => s.position(q.column) is None,
            (Err(_), None) => true,
        },
{
}

/// The type of a column is told by the words in its name: a truth value before a time, a
/// time before an integer, an integer before a float, and a text else.
pub proof fn types_are_told_by_their_names(raw: Seq<char>)
    ensures
        ({
            let upper = uppercase(raw);
            let boolean = has_part(upper, seq!['B', 'O', 'O', 'L']);
            let time = has_part(upper, "TIMESTAMP"@) || has_part(upper, seq!['D', 'A', 'T', 'E']);
            let integer = has_part(upper, seq!['I', 'N', 'T']);
            let float = has_part(upper, seq!['F', 'L', 'O', 'A', 'T']) || has_part(
                upper,
                "DOUBLE"@,
            ) || has_part(upper, "DECIMAL"@) || has_part(upper, "NUMERIC"@) || has_part(
                upper,
                seq!['R', 'E', 'A', 'L'],
            );
            &&& (ddl_type(raw) == DataType::Boolean) <==> boolean
            &&& (ddl_type(raw) == DataType::Timestamp) <==> time && !boolean
            &&& (ddl_type(raw) == DataType::Integer) <==> integer && !time && !boolean
            &&& (ddl_type(raw) == DataType::Float) <==> float && !integer && !time && !boolean
        }),
{
    reveal_strlit("BOOL");
    reveal_strlit("DATE");
    reveal_strlit("INT");
    reveal_strlit("FLOAT");
    reveal_strlit("REAL");
    assert("BOOL"@ =~= seq!['B', 'O', 'O', 'L']);
    assert("DATE"@ =~= seq!['D', 'A', 'T', 'E']);
    assert("INT"@ =~= seq!['I', 'N', 'T']);
    assert("FLOAT"@ =~= seq!['F', 'L', 'O', 'A', 'T']);
    assert("REAL"@ =~= seq!['R', 'E', 'A', 'L']);
}

// ---- looking at columns -----------------------------------------------------------

proof fn lemma_numbers_of_more(
    row: Seq<Datum>,
    input: Seq<Seq<Datum>>,
    c: int,
    i: int,
    fl: FloatModel,
)
    requires
        0 <= i <= input.len(),
    ensures
        column_numbers(seq![row] + input, c, i + 1, fl) == column_numbers(input, c, i, fl),
        column_words(seq![row] + input, c, i + 1) == column_words(input, c, i),
    decreases input.len() - i,
{
    if i < input.len() {
        assert((seq![row] + input)[i + 1] == input[i]);
        lemma_numbers_of_more(row, input, c, i + 1, fl);
    }
}

/// The numbers of a column are those of its rows in their order, an integer as the unit's
/// float; a row without a number there has none. The same holds of its words.
pub proof fn a_column_has_the_values_of_its_rows(
    row: Seq<Datum>,
    input: Seq<Seq<Datum>>,
    c: int,
    fl: FloatModel,
)
    requires
        0 <= c < row.len(),
    ensures
        ({
            let more = seq![row] + input;
            let numbers = column_numbers(input, c, 0, fl);
            let words = column_words(input, c, 0);
            &&& column_numbers(more, c, 0, fl) == match row[c] {
                Datum::Float(x) => seq![F64 { bits: x }] + numbers,
                Datum::Integer(n) => seq![
                    F64 { bits: (fl.gives)(FloatOp::OfInteger, n as u64, 0) },
                ] + numbers,
                _ => numbers,
            }
            &&& column_words(more, c, 0) == match row[c] {
                Datum::Text(s) => seq![s] + words,
                Datum::Boolean(true) => seq!["true"@] + words,
                Datum::Boolean(false) => seq!["false"@] + words,
                _ => words,
            }
        }),
{
    lemma_numbers_of_more(row, input, c, 0, fl);
    assert((seq![row] + input)[0] == row);
}

proof fn lemma_analyzed(
    stats: StatsModel,
    table: Seq<char>,
    s: SchemaModel,
    input: Seq<Seq<Datum>>,
    i: int,
    c: int,
    fl: FloatModel,
)
    requires
        0 <= i <= s.columns.len(),
        0 <= c < s.columns.len(),
        forall|k: int|
            0 <= k < s.columns.len() && k != c ==> (#[trigger] s.columns[k]).name
                != s.columns[c].name,
        columns_analyzed(stats, table, s, input, i, fl) is Ok,
    ensures
        ({
            let out = columns_analyzed(stats, table, s, input, i, fl)->Ok_0;
            let name = s.columns[c].name;
            &&& i <= c ==> match column_distribution(s.columns[c], input, c, fl) {
                Ok(Some(d)) => stat_of(out, table, name) == Some(d),
                Ok(None) => stat_of(out, table, name) == stat_of(stats, table, name),
                Err(_) => false,
            }
            &&& c < i ==> stat_of(out, table, name) == stat_of(stats, table, name)
        }),
    decreases s.columns.len() - i,
{
    if i < s.columns.len() {
        match column_distribution(s.columns[i], input, i, fl) {
            Ok(Some(d)) => {
                let next = with_stat(stats, table, s.columns[i].name, d);
                a_noted_column_is_found(
                    stats,
                    table,
                    s.columns[i].name,
                    d,
                    table,
                    s.columns[c].name,
                );
                lemma_analyzed(next, table, s, input, i + 1, c, fl);
            },
            Ok(None) => {
                lemma_analyzed(stats, table, s, input, i + 1, c, fl);
            },
            Err(_) => {},
        }
    }
}

/// After a table is looked at, what is known of a column of numbers is the distribution of
/// the numbers that its rows have there, among all its rows; of another column that of its
/// words.
pub proof fn looking_at_a_table_learns_its_columns(
    db: Db,
    table: Seq<char>,
    c: int,
    fl: FloatModel,
)
    requires
        analyzed(db, table, fl) is Ok,
        table_named(db.catalog, table) matches Some(s) && 0 <= c < s.columns.len() && (forall|k: int|
            0 <= k < s.columns.len() && k != c ==> (#[trigger] s.columns[k]).name
                != s.columns[c].name),
    ensures
        ({
            let s = table_named(db.catalog, table)->0;
            let stats = analyzed(db, table, fl)->Ok_0;
            let input = decoded_rows(
                rows_at(db.engine.tables, s.table_id as u64, db.engine.clock),
                0,
            );
            let known = stat_of(stats, table, s.columns[c].name);
            let ty = s.columns[c].data_type;
            if ty == DataType::Integer || ty == DataType::Float || ty == DataType::Timestamp {
                let values = column_numbers(input, c, 0, fl);
                if values.len() == 0 {
                    known is None
                } else {
                    known == Some(
                        among_rows(
                            numeric_distribution(values, ANALYZE_PGM_ERROR_BOUND, fl),
                            input.len() as usize,
                        ),
                    )
                }
            } else {
                let values = column_words(input, c, 0);
                if values.len() == 0 {
                    known is None
                } else {
                    known == Some(
                        among_rows(categorical_distribution(values), input.len() as usize),
                    )
                }
            }
        }),
{
    let s = table_named(db.catalog, table)->0;
    let input = decoded_rows(rows_at(db.engine.tables, s.table_id as u64, db.engine.clock), 0);
    let left = crate::optimizer::cardinality::without_table(db.stats, table, 0);
    crate::optimizer::cardinality_laws::a_forgotten_table_is_unknown(
        db.stats,
        table,
        table,
        s.columns[c].name,
    );
    lemma_analyzed(left, table, s, input, 0, c, fl);
}

} // verus!
