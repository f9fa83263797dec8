//! What a last step makes of the rows of a plan.

use vstd::prelude::*;
use crate::error::Fault;
use crate::execution::executor::Db;
use crate::execution::operators::Datum;
use crate::execution::query::{
    answered, called, no_input, qualifier_after, ran, shortcut, shown_row, shown_rows, stepped,
    Flow,
};
use crate::execution::relation::{all_within, key_columns, placed, resolved, RelationModel};
use crate::execution::row_codec::ordering::{
    insert_place, lemma_insert_place, row_order, sorted_rows, Place, SortKey,
};
use crate::execution::row_codec::sorting_laws::{neighbours_are_in_order, sorting_keeps_the_rows};
use crate::execution::scan::table_scan;
use crate::float::{FloatModel, Order};
use crate::optimizer::planner::NodeModel;

verus! {

/// What a step makes of what a plan yields.
pub open spec fn after_last(
    db: Db,
    last: NodeModel,
    end: Result<Flow, Fault>,
    fl: FloatModel,
) -> Result<Flow, Fault> {
    match end {
        Err(f) => Err(f),
        Ok(flow) => match flow.relation {
            None => Err(no_input(last)),
            Some(r) => match stepped(db, last, r, flow.qualifier, fl) {
                Err(f) => Err(f),
                Ok(next) => Ok(
                    Flow {
                        relation: Some(next),
                        qualifier: qualifier_after(last, flow.qualifier),
                    },
                ),
            },
        },
    }
}

/// A step at the end of a plan, other than one that reads a table or narrows one, works
/// on what the plan yields without it.
pub proof fn a_last_step_works_on_the_rest(
    db: Db,
    nodes: Seq<NodeModel>,
    last: NodeModel,
    i: int,
    flow: Flow,
    fl: FloatModel,
)
    requires
        0 <= i <= nodes.len(),
        !(last is Scan),
        !(last is Filter),
    ensures
        ran(db, nodes.push(last), i, flow, fl) == after_last(
            db,
            last,
            ran(db, nodes, i, flow, fl),
            fl,
        ),
    decreases nodes.len() - i,
{
    let all = nodes.push(last);
    if i == nodes.len() {
        assert(all[i] == last);
        if let Some(r) = flow.relation {
            if let Ok(next) = stepped(db, last, r, flow.qualifier, fl) {
                let after = Flow {
                    relation: Some(next),
                    qualifier: qualifier_after(last, flow.qualifier),
                };
                assert(ran(db, all, i + 1, after, fl) == Ok::<Flow, Fault>(after));
            }
        }
    } else {
        assert(all[i] == nodes[i]);
        if i + 1 < nodes.len() {
            assert(all[i + 1] == nodes[i + 1]);
        } else {
            assert(all[i + 1] == last);
        }
        match nodes[i] {
            NodeModel::Scan { table_name, alias, .. } => {
                let qualifier = Some(called(alias, table_name));
                if i + 1 < nodes.len() {
                    if let NodeModel::Filter { predicate, split, .. } = nodes[i + 1] {
                        if let Ok(Some(r)) = shortcut(db, table_name, predicate, split, fl) {
                            let next = Flow { relation: Some(r), qualifier };
                            a_last_step_works_on_the_rest(db, nodes, last, i + 2, next, fl);
                        }
                    }
                }
                if let Ok(r) = table_scan(db, table_name) {
                    let next = Flow { relation: Some(r), qualifier };
                    a_last_step_works_on_the_rest(db, nodes, last, i + 1, next, fl);
                }
            },
            node => {
                if let Some(r) = flow.relation {
                    if let Ok(made) = stepped(db, node, r, flow.qualifier, fl) {
                        let next = Flow {
                            relation: Some(made),
                            qualifier: qualifier_after(node, flow.qualifier),
                        };
                        a_last_step_works_on_the_rest(db, nodes, last, i + 1, next, fl);
                    }
                }
            },
        }
    }
}

proof fn lemma_shown_keeps(
    input: Seq<Seq<Datum>>,
    n: int,
    keys: Seq<Place>,
    fl: FloatModel,
)
    requires
        0 <= n <= input.len(),
    ensures
        shown_rows(sorted_rows(input, n, keys, fl), fl).to_multiset() == shown_rows(
            input.take(n),
            fl,
        ).to_multiset(),
    decreases n,
{
    broadcast use vstd::seq_lib::group_to_multiset_ensures;

    if n > 0 {
        lemma_shown_keeps(input, n - 1, keys, fl);
        let before = sorted_rows(input, n - 1, keys, fl);
        let row = input[n - 1];
        let p = insert_place(before, row, before.len() as int, keys, fl);
        lemma_insert_place(before, row, before.len() as int, keys, fl);
        assert(shown_rows(before.insert(p, row), fl) =~= shown_rows(before, fl).insert(
            p,
            shown_row(row, fl),
        ));
        vstd::seq_lib::to_multiset_insert(shown_rows(before, fl), p, shown_row(row, fl));
        assert(shown_rows(input.take(n), fl) =~= shown_rows(input.take(n - 1), fl).push(
            shown_row(row, fl),
        ));
        vstd::seq_lib::to_multiset_build(shown_rows(input.take(n - 1), fl), shown_row(row, fl));
    } else {
        assert(input.take(0) =~= Seq::<Seq<Datum>>::empty());
    }
}

/// A plan that ends in a sort answers with the rows of the plan without it, each as
/// often, and of two neighbours the keys never put the second ahead.
pub proof fn a_last_sort_orders_the_answer(
    db: Db,
    base: Seq<NodeModel>,
    keys: Seq<SortKey>,
    rows: usize,
    r: RelationModel,
    at: Seq<int>,
    fl: FloatModel,
)
    requires
        ran(db, base, 0, Flow { relation: None, qualifier: None }, fl) matches Ok(end)
            && end.relation == Some(r),
        resolved(key_columns(keys), 0, r.schema, "Unknown column '"@, "' in ORDER BY"@) == Ok::<
            Seq<int>,
            Fault,
        >(at),
        all_within(r.rows, at),
    ensures
        ({
            let sorted = sorted_rows(r.rows, r.rows.len() as int, placed(keys, at), fl);
            let answer = answered(db, base.push(NodeModel::Sort { keys, rows }), fl);
            &&& answered(db, base, fl) == Ok::<Seq<Seq<Seq<char>>>, Fault>(shown_rows(r.rows, fl))
            &&& answer == Ok::<Seq<Seq<Seq<char>>>, Fault>(shown_rows(sorted, fl))
            &&& sorted.to_multiset() == r.rows.to_multiset()
            &&& shown_rows(sorted, fl).to_multiset() == shown_rows(r.rows, fl).to_multiset()
            &&& forall|i: int, j: int|
                0 <= i && i + 1 == j && j < sorted.len() ==> row_order(
                    #[trigger] sorted[i],
                    #[trigger] sorted[j],
                    placed(keys, at),
                    0,
                    fl,
                ) != Order::Greater
        }),
{
    let n = r.rows.len() as int;
    let start = Flow { relation: None, qualifier: None };
    a_last_step_works_on_the_rest(db, base, NodeModel::Sort { keys, rows }, 0, start, fl);
    sorting_keeps_the_rows(r.rows, n, placed(keys, at), fl);
    neighbours_are_in_order(r.rows, n, placed(keys, at), fl);
    lemma_shown_keeps(r.rows, n, placed(keys, at), fl);
    assert(r.rows.take(n) =~= r.rows);
}

} // verus!
