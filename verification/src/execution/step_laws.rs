//! What the steps of a plan do to a relation, and how values are shown.

use vstd::prelude::*;
use crate::error::Fault;
use crate::execution::executor::Db;
use crate::execution::operators::Datum;
use crate::execution::query::{answered, ran, shown_rows, stepped};
use crate::execution::relation::{
    distinct_rows_are_distinct, key_columns, placed, resolved, RelationModel,
};
use crate::execution::result_laws::{
    a_projection_has_the_named_columns, a_where_clause_keeps_what_it_is_true_of,
    a_window_is_a_stretch_of_rows,
};
use crate::execution::row_codec::literals::shown;
use crate::execution::row_codec::ordering::row_order;
use crate::execution::row_codec::predicate_laws::judged;
use crate::execution::row_codec::sorting_laws::{neighbours_are_in_order, sorting_keeps_the_rows};
use crate::execution::scan::table_scan;
use crate::float::{FloatModel, Order};
use crate::optimizer::planner::NodeModel;
use crate::text::{decimal_reads_back, integer_reading};

verus! {

/// A filter step keeps the rows that its predicate is judged true of.
pub proof fn a_filter_step_keeps_what_is_true(
    db: Db,
    node: NodeModel,
    r: RelationModel,
    qualifier: Option<Seq<char>>,
    row: Seq<Datum>,
    fl: FloatModel,
)
    requires
        node is Filter,
    ensures
        match stepped(db, node, r, qualifier, fl) {
            Ok(out) => out.schema == r.schema && (out.rows.contains(row) <==> r.rows.contains(row)
                && judged(node->Filter_predicate, r.schema, row, fl) == Some(true)),
            Err(_) => judged(node->Filter_predicate, r.schema, row, fl) is None,
        },
{
    a_where_clause_keeps_what_it_is_true_of(r, node->Filter_predicate, row, fl);
}

/// A project step has the named columns of every row.
pub proof fn a_project_step_has_the_named_columns(
    db: Db,
    node: NodeModel,
    r: RelationModel,
    qualifier: Option<Seq<char>>,
    i: int,
    k: int,
    fl: FloatModel,
)
    requires
        node is Project,
        stepped(db, node, r, qualifier, fl) is Ok,
        0 <= i < r.rows.len(),
        0 <= k < node->Project_columns.len(),
    ensures
        ({
            let out = stepped(db, node, r, qualifier, fl)->Ok_0;
            &&& out.rows.len() == r.rows.len()
            &&& r.schema.position(node->Project_columns[k]) matches Some(p) && 0 <= p
                < r.rows[i].len() && out.rows[i].len() == node->Project_columns.len()
                && out.rows[i][k] == r.rows[i][p]
        }),
{
    a_projection_has_the_named_columns(r, node->Project_columns, i, k);
}

/// A distinct step leaves each row once, and drops none altogether.
pub proof fn a_distinct_step_leaves_each_row_once(
    db: Db,
    node: NodeModel,
    r: RelationModel,
    qualifier: Option<Seq<char>>,
    row: Seq<Datum>,
    fl: FloatModel,
)
    requires
        node is Distinct,
    ensures
        match stepped(db, node, r, qualifier, fl) {
            Ok(out) => out.schema == r.schema && out.rows.no_duplicates() && (out.rows.contains(row)
                <==> r.rows.contains(row)),
            Err(_) => false,
        },
{
    let n = r.rows.len() as int;
    distinct_rows_are_distinct(r.rows, n);
    assert(r.rows.take(n) =~= r.rows);
}

/// A limit step skips as many rows as it says and leaves at most as many as it says.
pub proof fn a_limit_step_cuts_the_rows(
    db: Db,
    node: NodeModel,
    r: RelationModel,
    qualifier: Option<Seq<char>>,
    i: int,
    fl: FloatModel,
)
    requires
        node is Limit,
    ensures
        match stepped(db, node, r, qualifier, fl) {
            Ok(out) => {
                let limit = node->Limit_limit as int;
                let offset = node->Limit_offset as int;
                &&& out.schema == r.schema
                &&& out.rows.len() <= limit
                &&& offset + limit <= r.rows.len() ==> out.rows.len() == limit
                &&& offset <= r.rows.len() < offset + limit ==> out.rows.len() == r.rows.len()
                    - offset
                &&& offset >= r.rows.len() ==> out.rows.len() == 0
                &&& 0 <= i < out.rows.len() ==> out.rows[i] == r.rows[offset + i]
            },
            Err(_) => false,
        },
{
    a_window_is_a_stretch_of_rows(r.rows, node->Limit_offset as int, node->Limit_limit as int, i);
}

/// A sort step has the rows that it was given, each in the order of the keys to the next.
pub proof fn a_sort_step_orders_the_rows(
    db: Db,
    node: NodeModel,
    r: RelationModel,
    qualifier: Option<Seq<char>>,
    fl: FloatModel,
)
    requires
        node is Sort,
        stepped(db, node, r, qualifier, fl) is Ok,
    ensures
        ({
            let out = stepped(db, node, r, qualifier, fl)->Ok_0;
            let keys = node->Sort_keys;
            let at = resolved(
                key_columns(keys),
                0,
                r.schema,
                "Unknown column '"@,
                "' in ORDER BY"@,
            )->Ok_0;
            &&& out.schema == r.schema
            &&& out.rows.to_multiset() == r.rows.to_multiset()
            &&& forall|i: int, j: int|
                0 <= i && i + 1 == j && j < out.rows.len() ==> row_order(
                    #[trigger] out.rows[i],
                    #[trigger] out.rows[j],
                    placed(keys, at),
                    0,
                    fl,
                ) != Order::Greater
        }),
{
    let keys = node->Sort_keys;
    let at = resolved(key_columns(keys), 0, r.schema, "Unknown column '"@, "' in ORDER BY"@)->Ok_0;
    let n = r.rows.len() as int;
    sorting_keeps_the_rows(r.rows, n, placed(keys, at), fl);
    neighbours_are_in_order(r.rows, n, placed(keys, at), fl);
    assert(r.rows.take(n) =~= r.rows);
}

/// Reading a table without anything else answers its rows.
pub proof fn a_scan_answers_the_table(
    db: Db,
    table_id: u32,
    table_name: Seq<char>,
    alias: Option<Seq<char>>,
    rows: usize,
    fl: FloatModel,
)
    ensures
        ({
            let nodes = seq![NodeModel::Scan { table_id, table_name, alias, rows }];
            match table_scan(db, table_name) {
                Ok(t) => answered(db, nodes, fl) == Ok::<Seq<Seq<Seq<char>>>, Fault>(
                    shown_rows(t.rows, fl),
                ),
                Err(f) => answered(db, nodes, fl) == Err::<Seq<Seq<Seq<char>>>, Fault>(f),
            }
        }),
{
    let nodes = seq![NodeModel::Scan { table_id, table_name, alias, rows }];
    reveal_with_fuel(ran, 3);
    assert(nodes.len() == 1);
}

/// An answer shows every value of every row, in its place. An integer is shown so that it
/// reads back, a text as it is, a truth value by its word, and null by its.
pub proof fn values_are_shown_plainly(
    input: Seq<Seq<Datum>>,
    i: int,
    k: int,
    n: i64,
    x: u64,
    s: Seq<char>,
    b: bool,
    fl: FloatModel,
)
    ensures
        shown_rows(input, fl).len() == input.len(),
        0 <= i < input.len() && 0 <= k < input[i].len() ==> shown_rows(input, fl)[i].len()
            == input[i].len() && shown_rows(input, fl)[i][k] == shown(input[i][k], fl),
        integer_reading(shown(Datum::Integer(n), fl)) == Some(n),
        shown(Datum::Float(x), fl) == (fl.shows)(x),
        shown(Datum::Text(s), fl) == s,
        shown(Datum::Boolean(true), fl) == seq!['t', 'r', 'u', 'e'],
        shown(Datum::Boolean(false), fl) == seq!['f', 'a', 'l', 's', 'e'],
        shown(Datum::Null, fl) == seq!['N', 'U', 'L', 'L'],
{
    decimal_reads_back(n);
    reveal_strlit("true");
    reveal_strlit("false");
    reveal_strlit("NULL");
    assert("true"@ =~= seq!['t', 'r', 'u', 'e']);
    assert("false"@ =~= seq!['f', 'a', 'l', 's', 'e']);
    assert("NULL"@ =~= seq!['N', 'U', 'L', 'L']);
}

} // verus!
