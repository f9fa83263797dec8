//! What a plan does, in which order, and what it is expected to yield.

use vstd::prelude::*;
use crate::execution::aggregate::aggregate_call;
use crate::execution::grouping::text_from;
use crate::execution::row_codec::ordering::order_by_keys;
use crate::execution::row_codec::tokens::tokens_of;
use crate::float::{is_less, FloatModel, FloatOp};
use crate::optimizer::cardinality::{
    different_values, placeable, scaled_rows, selectivity, stat_of, table_rows, StatsModel,
};
use crate::optimizer::cost_model::{
    operator_cost, plan_cost, unit_costs, CostModel, OperatorCost, OperatorType, ONE,
};
use crate::optimizer::join_reorder::{
    dotted, equal_pairs, every_join_is_planned_once, first_dot, qualifier, shape_of,
    share_of_pairs, the_cheapest_order_is_taken, JoinProblem, ShapeModel,
};
use crate::optimizer::planner::{
    aggregate_nodes, cut_rows, distinct_nodes, filter_nodes, filtered_rows, first_qualifier,
    grouped_rows, is_aggregate, is_grouped_column, join_nodes, join_problem, joined_table,
    limit_nodes, literal_value, node_rows, operators_of, planned, project_nodes, query_sizes,
    rows_called, shape_nodes, shaped_rows, sort_nodes, source_nodes, source_rows, table_called,
    NodeModel,
};
use crate::sql::parser::SelectModel;

verus! {

// ---- the steps of a plan ----------------------------------------------------------

/// The place of a step among the kinds of steps.
pub open spec fn stage(n: NodeModel) -> int {
    match n {
        NodeModel::Scan { .. } => 0,
        NodeModel::Join { .. } => 1,
        NodeModel::Filter { .. } => 2,
        NodeModel::Aggregate { .. } => 3,
        NodeModel::Sort { .. } => 4,
        NodeModel::Project { .. } => 5,
        NodeModel::Distinct { .. } => 6,
        NodeModel::Limit { .. } => 7,
    }
}

/// Some step of a plan is of this kind.
pub open spec fn has_stage(nodes: Seq<NodeModel>, k: int) -> bool {
    exists|i: int| 0 <= i < nodes.len() && stage(#[trigger] nodes[i]) == k
}

/// A plan reads the table, joins the others, keeps the rows of the `WHERE` clause, groups,
/// sorts, keeps the columns that are asked for, drops repeated rows and cuts the rest, in
/// this order; each but the joins at most once.
pub proof fn steps_come_in_their_order(
    q: SelectModel,
    stats: StatsModel,
    costs: CostModel,
    join_costs: CostModel,
    fl: FloatModel,
    i: int,
    j: int,
)
    requires
        planned(q, stats, costs, join_costs, fl) is Ok,
        0 <= i < j < planned(q, stats, costs, join_costs, fl)->Ok_0.nodes.len(),
    ensures
        ({
            let nodes = planned(q, stats, costs, join_costs, fl)->Ok_0.nodes;
            &&& stage(nodes[i]) <= stage(nodes[j])
            &&& stage(nodes[i]) == stage(nodes[j]) ==> stage(nodes[i]) == 1
            &&& nodes[0] matches NodeModel::Scan { table_name, alias, .. } && table_name == q.from
                && alias == q.from_alias
        }),
{
}

/// A step does what the query says of steps of its kind.
pub open spec fn as_asked(n: NodeModel, q: SelectModel) -> bool {
    match n {
        NodeModel::Filter { predicate, split, .. } => q.where_clause == Some(predicate)
            && match split {
            Some((left, op, right)) => tokens_of(predicate) == seq![left, op, right],
            None => tokens_of(predicate).len() != 3,
        },
        NodeModel::Aggregate { columns, group_by, having, .. } => columns == q.columns && group_by
            == q.group_by && having == q.having,
        NodeModel::Sort { keys, .. } => q.order_by is Some && keys == order_by_keys(
            q.order_by->0,
        ),
        NodeModel::Project { columns, .. } => columns == q.columns,
        NodeModel::Limit { limit, offset, .. } => {
            &&& q.limit is Some ==> limit == q.limit->0
            &&& q.limit is None ==> limit == usize::MAX
            &&& q.offset is Some ==> offset == q.offset->0
            &&& q.offset is None ==> offset == 0
        },
        _ => true,
    }
}

/// Every step does what the query says of steps of its kind.
pub open spec fn all_as_asked(nodes: Seq<NodeModel>, q: SelectModel) -> bool {
    forall|i: int| 0 <= i < nodes.len() ==> as_asked(#[trigger] nodes[i], q)
}

proof fn lemma_steps_of_both(a: Seq<NodeModel>, b: Seq<NodeModel>, q: SelectModel)
    ensures
        forall|k: int| #[trigger] has_stage(a + b, k) <==> has_stage(a, k) || has_stage(b, k),
        all_as_asked(a, q) && all_as_asked(b, q) ==> all_as_asked(a + b, q),
{
    assert forall|k: int| #[trigger] has_stage(a + b, k) <==> has_stage(a, k) || has_stage(
        b,
        k,
    ) by {
        let all = a + b;
        if has_stage(all, k) {
            let i = choose|i: int| 0 <= i < all.len() && stage(#[trigger] all[i]) == k;
            if i < a.len() {
                assert(stage(a[i]) == k);
            } else {
                assert(stage(b[i - a.len()]) == k);
            }
        }
        if has_stage(a, k) {
            let i = choose|i: int| 0 <= i < a.len() && stage(#[trigger] a[i]) == k;
            assert(stage(all[i]) == k);
        }
        if has_stage(b, k) {
            let i = choose|i: int| 0 <= i < b.len() && stage(#[trigger] b[i]) == k;
            assert(stage(all[a.len() + i]) == k);
        }
    }
    if all_as_asked(a, q) && all_as_asked(b, q) {
        let all = a + b;
        assert forall|i: int| 0 <= i < all.len() implies as_asked(#[trigger] all[i], q) by {
            if i < a.len() {
                assert(as_asked(a[i], q));
            } else {
                assert(as_asked(b[i - a.len()], q));
            }
        }
    }
}

proof fn lemma_source_steps(
    q: SelectModel,
    stats: StatsModel,
    join_costs: CostModel,
    fl: FloatModel,
)
    ensures
        ({
            let nodes = source_nodes(q, stats, join_costs, fl);
            &&& has_stage(nodes, 2) <==> q.where_clause is Some
            &&& forall|k: int| k > 2 ==> !#[trigger] has_stage(nodes, k)
            &&& all_as_asked(nodes, q)
        }),
{
    let p = join_problem(q, stats, join_costs, fl);
    let joins = join_nodes(q.joins, p.plan(p.chosen()));
    let filter = filter_nodes(q, source_rows(q, stats, join_costs, fl));
    let scan = seq![
        NodeModel::Scan {
            table_id: 0,
            table_name: q.from,
            alias: q.from_alias,
            rows: p.from_rows,
        },
    ];
    lemma_steps_of_both(scan, joins, q);
    lemma_steps_of_both(scan + joins, filter, q);
    assert forall|i: int| 0 <= i < joins.len() implies #[trigger] joins[i] is Join by {}
    if q.where_clause is Some {
        assert(stage(filter[0]) == 2);
        let t = tokens_of(q.where_clause->0);
        if t.len() == 3 {
            assert(t =~= seq![t[0], t[1], t[2]]);
        }
    }
}

proof fn lemma_shape_steps(q: SelectModel, rows: usize)
    ensures
        ({
            let nodes = shape_nodes(q, rows);
            &&& !has_stage(nodes, 2)
            &&& has_stage(nodes, 3) <==> is_aggregate(q)
            &&& has_stage(nodes, 4) <==> (q.order_by is Some && order_by_keys(q.order_by->0).len()
                > 0)
            &&& has_stage(nodes, 5) <==> !is_aggregate(q) && q.columns != seq![seq!['*']]
            &&& has_stage(nodes, 6) <==> q.distinct
            &&& has_stage(nodes, 7) <==> q.limit is Some || q.offset is Some
            &&& all_as_asked(nodes, q)
        }),
{
    reveal_strlit("*");
    assert("*"@ =~= seq!['*']);
    if q.columns.len() == 1 && q.columns[0] == "*"@ {
        assert(q.columns =~= seq![seq!['*']]);
    }
    let a = aggregate_nodes(q, rows);
    let b = sort_nodes(q, rows);
    let c = project_nodes(q, rows);
    let d = distinct_nodes(q, rows);
    let e = limit_nodes(q, cut_rows(q, rows));
    lemma_steps_of_both(a, b, q);
    lemma_steps_of_both(a + b, c, q);
    lemma_steps_of_both(a + b + c, d, q);
    lemma_steps_of_both(a + b + c + d, e, q);
    assert(a.len() > 0 ==> stage(a[0]) == 3);
    assert(b.len() > 0 ==> stage(b[0]) == 4);
    assert(c.len() > 0 ==> stage(c[0]) == 5);
    assert(d.len() > 0 ==> stage(d[0]) == 6);
    assert(e.len() > 0 ==> stage(e[0]) == 7);
}

/// A plan has exactly the steps that the query asks for, with what it says of them.
pub proof fn a_plan_does_what_the_query_asks(
    q: SelectModel,
    stats: StatsModel,
    costs: CostModel,
    join_costs: CostModel,
    fl: FloatModel,
)
    requires
        planned(q, stats, costs, join_costs, fl) is Ok,
    ensures
        ({
            let nodes = planned(q, stats, costs, join_costs, fl)->Ok_0.nodes;
            &&& has_stage(nodes, 2) <==> q.where_clause is Some
            &&& has_stage(nodes, 3) <==> is_aggregate(q)
            &&& has_stage(nodes, 4) <==> (q.order_by is Some && order_by_keys(q.order_by->0).len()
                > 0)
            &&& has_stage(nodes, 5) <==> !is_aggregate(q) && q.columns != seq![seq!['*']]
            &&& has_stage(nodes, 6) <==> q.distinct
            &&& has_stage(nodes, 7) <==> q.limit is Some || q.offset is Some
            &&& all_as_asked(nodes, q)
        }),
{
    let rows = shaped_rows(q, source_rows(q, stats, join_costs, fl), fl);
    lemma_source_steps(q, stats, join_costs, fl);
    lemma_shape_steps(q, rows);
    lemma_steps_of_both(source_nodes(q, stats, join_costs, fl), shape_nodes(q, rows), q);
}

/// A query is grouped where every column that it asks for is grouped by or an aggregate
/// call; a `HAVING` clause is refused without that.
pub proof fn a_query_of_keys_and_calls_is_grouped(
    q: SelectModel,
    stats: StatsModel,
    costs: CostModel,
    join_costs: CostModel,
    fl: FloatModel,
)
    ensures
        is_aggregate(q) <==> q.columns.len() > 0 && forall|i: int|
            0 <= i < q.columns.len() ==> q.group_by.contains(#[trigger] q.columns[i])
                || aggregate_call(q.columns[i]) is Some,
        planned(q, stats, costs, join_costs, fl) is Err <==> q.having is Some && !is_aggregate(q),
{
    assert forall|t: Seq<char>| text_from(q.group_by, t, 0) is Some <==> #[trigger]
        q.group_by.contains(t) by {
        lemma_text_from(q.group_by, t, 0);
    }
    if is_aggregate(q) {
        assert forall|i: int| 0 <= i < q.columns.len() implies q.group_by.contains(
            #[trigger] q.columns[i],
        ) || aggregate_call(q.columns[i]) is Some by {
            assert(is_grouped_column(q, q.columns[i]));
        }
    }
}

proof fn lemma_text_from(v: Seq<Seq<char>>, t: Seq<char>, from: int)
    requires
        0 <= from <= v.len(),
    ensures
        text_from(v, t, from) is Some <==> exists|i: int|
            from <= i < v.len() && #[trigger] v[i] == t,
    decreases v.len() - from,
{
    if from < v.len() && v[from] != t {
        lemma_text_from(v, t, from + 1);
    }
}

/// Every join of the query is one step of the plan, after the first.
pub proof fn every_join_is_a_step(
    q: SelectModel,
    stats: StatsModel,
    costs: CostModel,
    join_costs: CostModel,
    fl: FloatModel,
    k: int,
)
    requires
        planned(q, stats, costs, join_costs, fl) is Ok,
        q.joins.len() <= usize::MAX,
        0 <= k < q.joins.len(),
    ensures
        ({
            let nodes = planned(q, stats, costs, join_costs, fl)->Ok_0.nodes;
            let order = join_problem(q, stats, join_costs, fl).chosen();
            &&& order.len() == q.joins.len()
            &&& order[k] < q.joins.len()
            &&& forall|l: int| 0 <= l < order.len() && l != k ==> #[trigger] order[l] != order[k]
            &&& nodes[k + 1] matches NodeModel::Join {
                right_table,
                right_alias,
                condition,
                equi_match,
                kind,
                ..
            } && {
                let j = q.joins[order[k] as int];
                &&& right_table == j.table
                &&& right_alias == j.alias
                &&& condition == j.condition
                &&& equi_match == j.equi
                &&& kind == j.kind
            }
        }),
{
    let p = join_problem(q, stats, join_costs, fl);
    every_join_is_planned_once(p);
    let nodes = planned(q, stats, costs, join_costs, fl)->Ok_0.nodes;
    let joins = join_nodes(q.joins, p.plan(p.chosen()));
    assert(nodes[k + 1] == joins[k]);
}

// ---- estimates --------------------------------------------------------------------

/// A table's rows are those that were counted when one of its columns was looked at, and
/// a thousand where none was.
pub proof fn a_table_has_its_counted_rows(q: SelectModel, stats: StatsModel)
    requires
        q.joins.len() == 0,
    ensures
        match table_rows(stats, q.from, 0) {
            Some(n) => rows_called(q, stats, first_qualifier(q)) == n,
            None => rows_called(q, stats, first_qualifier(q)) == 1000,
        },
{
}

/// Where the column of a single comparison was looked at, the estimate of the rows that it
/// keeps is the table's rows scaled by the column's share; elsewhere half of the rows are
/// expected to stay, and all of them without a clause.
pub proof fn an_estimate_uses_what_is_known(
    q: SelectModel,
    stats: StatsModel,
    rows: usize,
    fl: FloatModel,
)
    requires
        q.joins.len() == 0,
    ensures
        q.where_clause is None ==> filtered_rows(q, stats, rows, fl) == rows,
        q.where_clause matches Some(p) ==> {
            let t = tokens_of(p);
            let known = t.len() == 3 && stat_of(stats, q.from, t[0]) is Some;
            let d = stat_of(stats, q.from, t[0])->0;
            let v = literal_value(t[2], d, fl);
            let share = selectivity(d, t[1], v->0, fl);
            if known && v is Some && placeable(d, v->0, fl) && share is Some {
                filtered_rows(q, stats, rows, fl) == scaled_rows(rows, share->0, fl)
            } else {
                filtered_rows(q, stats, rows, fl) == scaled_rows(rows, 0x3fe0_0000_0000_0000, fl)
            }
        },
{
}

/// A query on one table that only keeps some rows is expected to yield the rows that its
/// clause is estimated to keep; a limit and an offset cut that number as they cut the rows.
pub proof fn a_plan_expects_what_its_clause_keeps(
    q: SelectModel,
    stats: StatsModel,
    costs: CostModel,
    join_costs: CostModel,
    fl: FloatModel,
)
    requires
        q.joins.len() == 0,
        !is_aggregate(q),
        q.having is None,
    ensures
        ({
            let all = rows_called(q, stats, first_qualifier(q));
            let kept = filtered_rows(q, stats, all, fl);
            let p = planned(q, stats, costs, join_costs, fl)->Ok_0;
            let skipped = match q.offset {
                Some(n) => n,
                None => 0,
            };
            &&& planned(q, stats, costs, join_costs, fl) is Ok
            &&& q.limit is None && q.offset is None ==> p.rows == kept
            &&& q.limit matches Some(n) ==> p.rows <= n
            &&& p.rows <= kept
            &&& kept <= skipped && q.offset is Some ==> p.rows == 0
            &&& q.limit matches Some(n) ==> (kept >= skipped + n ==> p.rows == n)
            &&& q.limit is None && kept >= skipped ==> p.rows == kept - skipped
        }),
{
    let p = join_problem(q, stats, join_costs, fl);
    every_join_is_planned_once(p);
    assert(p.chosen().len() == 0);
}

/// Grouping without columns yields one row.
pub proof fn one_group_is_one_row(
    q: SelectModel,
    stats: StatsModel,
    costs: CostModel,
    join_costs: CostModel,
    fl: FloatModel,
)
    requires
        is_aggregate(q),
        q.group_by.len() == 0,
        q.limit is None,
        q.offset is None,
    ensures
        planned(q, stats, costs, join_costs, fl) matches Ok(p) && p.rows == 1,
{
}

/// Joining without a condition yields every pair of rows, as far as they can be counted.
pub proof fn a_cross_join_yields_all_pairs(p: JoinProblem, i: int, current: usize)
    requires
        0 <= i < p.joins.len(),
        p.joins[i].condition is None,
    ensures
        ({
            let n = current * p.right_rows(i);
            &&& n <= usize::MAX ==> p.yielded(i, current) == n
            &&& n > usize::MAX ==> p.yielded(i, current) == usize::MAX
        }),
{
}

/// Joining on equal columns yields the pairs of rows divided by the greater number of
/// different values, where both numbers are known, whichever side has it; on other
/// comparisons, and where they are not known, the same share of the pairs.
pub proof fn an_equality_join_divides_by_the_greater_number(
    left: usize,
    right: usize,
    l: usize,
    r: usize,
    s: u64,
    fl: FloatModel,
)
    requires
        0 < l,
        0 < r,
    ensures
        ({
            let pairs = (fl.gives)(
                FloatOp::Times,
                (fl.gives)(FloatOp::OfCount, left as u64, 0),
                (fl.gives)(FloatOp::OfCount, right as u64, 0),
            );
            let most = if l >= r { l } else { r };
            &&& equal_pairs(left, right, Some(l), Some(r), s, fl) == (fl.gives)(
                FloatOp::ToCount,
                (fl.gives)(FloatOp::Over, pairs, (fl.gives)(FloatOp::OfCount, most as u64, 0)),
                0,
            ) as usize
            &&& equal_pairs(left, right, Some(l), Some(r), s, fl) == equal_pairs(
                left,
                right,
                Some(r),
                Some(l),
                s,
                fl,
            )
            &&& equal_pairs(left, right, None, Some(r), s, fl) == (fl.gives)(
                FloatOp::ToCount,
                (fl.gives)(FloatOp::Times, pairs, s),
                0,
            ) as usize
            &&& equal_pairs(left, right, Some(l), None, s, fl) == share_of_pairs(left, right, s, fl)
        }),
{
}

/// A join's condition compares a column of the joined table with one of a table that is
/// there before, whichever of the two is written first.
pub proof fn a_condition_names_both_columns(
    own: Seq<char>,
    own_column: Seq<char>,
    other: Seq<char>,
    other_column: Seq<char>,
    op: Seq<char>,
    text: Seq<char>,
)
    requires
        own != other,
        !own.contains('.'),
        !other.contains('.'),
        ({
            let a = own + seq!['.'] + own_column;
            let b = other + seq!['.'] + other_column;
            tokens_of(text) == seq![a, op, b] || tokens_of(text) == seq![b, op, a]
        }),
    ensures
        shape_of(own, Some(text)) == (ShapeModel::Compare {
            op,
            own_column,
            existing_qualifier: other,
            existing_column: other_column,
        }),
{
    lemma_dotted(own, own_column);
    lemma_dotted(other, other_column);
    let a = own + seq!['.'] + own_column;
    let b = other + seq!['.'] + other_column;
    let t = tokens_of(text);
    assert(t[0] == a && t[2] == b || t[0] == b && t[2] == a);
    assert(t[1] == op);
}

proof fn lemma_dotted(front: Seq<char>, back: Seq<char>)
    requires
        !front.contains('.'),
    ensures
        dotted(front + seq!['.'] + back) == Some((front, back)),
{
    let s = front + seq!['.'] + back;
    lemma_first_dot(s, 0, front.len() as int, front);
    assert(s.take(front.len() as int) =~= front);
    assert(s.skip(front.len() + 1int) =~= back);
}

proof fn lemma_first_dot(s: Seq<char>, i: int, at: int, front: Seq<char>)
    requires
        0 <= i <= at < s.len(),
        at == front.len(),
        !front.contains('.'),
        forall|k: int| 0 <= k < at ==> s[k] == front[k],
        s[at] == '.',
    ensures
        first_dot(s, i) == at,
    decreases at - i,
{
    if i < at {
        assert(front.contains(front[i]));
        lemma_first_dot(s, i + 1, at, front);
    }
}

/// In an order that can be run, a join comes after the tables that its condition names.
pub proof fn a_join_comes_after_what_it_names(p: JoinProblem, order: Seq<usize>, k: int)
    requires
        p.valid(order),
        0 <= k < order.len(),
    ensures
        match shape_of(
            qualifier(p.joins[order[k] as int]),
            p.joins[order[k] as int].condition,
        ) {
            ShapeModel::Compare { existing_qualifier, .. } => existing_qualifier == p.from
                || exists|l: int|
                0 <= l < k && qualifier(p.joins[#[trigger] order[l] as int]) == existing_qualifier,
            ShapeModel::Cross => true,
            ShapeModel::Unresolvable => false,
        },
{
    let before = order.take(k);
    assert(p.ready(before, order[k] as int));
    assert(p.shape(order[k] as int) == shape_of(
        qualifier(p.joins[order[k] as int]),
        p.joins[order[k] as int].condition,
    ));
    match p.shape(order[k] as int) {
        ShapeModel::Compare { existing_qualifier, .. } => {
            if existing_qualifier != p.from {
                let l = choose|l: int|
                    0 <= l < before.len() && qualifier(#[trigger] p.joins[before[l] as int])
                        == existing_qualifier;
                assert(before[l] == order[l]);
            }
        },
        _ => {},
    }
}

/// Where a condition cannot be read, or there are too many joins, the joins are run as
/// they are written.
pub proof fn what_cannot_be_searched_stays_as_written(p: JoinProblem, i: int)
    requires
        0 <= i < p.joins.len() <= usize::MAX,
        p.joins.len() > 8 || exists|k: int|
            0 <= k < p.joins.len() && shape_of(
                qualifier(#[trigger] p.joins[k]),
                p.joins[k].condition,
            ) is Unresolvable,
    ensures
        p.chosen().len() == p.joins.len(),
        p.chosen()[i] == i,
{
    if p.joins.len() <= 8 {
        let k = choose|k: int|
            0 <= k < p.joins.len() && shape_of(
                qualifier(#[trigger] p.joins[k]),
                p.joins[k].condition,
            ) is Unresolvable;
        assert(p.shape(k) is Unresolvable);
    }
}

/// A join more costs what it reads, the larger of its two sides, and what it yields, over
/// the cost of the joins before it; its rows are what it yields of theirs.
pub proof fn a_join_more_adds_its_cost(p: JoinProblem, order: Seq<usize>, i: usize)
    ensures
        ({
            let before = p.rows_after(order, order.len() as int);
            let right = p.right_rows(i as int);
            let after = p.yielded(i as int, before);
            let more = order.push(i);
            &&& p.rows_after(more, more.len() as int) == after
            &&& p.cost(more) == (p.floats.gives)(
                FloatOp::Plus,
                p.cost(order),
                operator_cost(p.costs, if before < right { right } else { before }, after, p.floats),
            )
            &&& p.cost(Seq::empty()) == 0
            &&& p.rows_after(Seq::empty(), 0) == p.from_rows
        }),
{
    lemma_order_of_more(p, order, i, order.len() as int);
    assert(order.push(i)[order.len() as int] == i);
}

proof fn lemma_order_of_more(p: JoinProblem, order: Seq<usize>, i: usize, n: int)
    requires
        0 <= n <= order.len(),
    ensures
        p.rows_after(order.push(i), n) == p.rows_after(order, n),
        p.cost_after(order.push(i), n) == p.cost_after(order, n),
    decreases n,
{
    if n > 0 {
        lemma_order_of_more(p, order, i, n - 1);
        assert(order.push(i)[n - 1] == order[n - 1]);
    }
}

/// A step costs what it reads times the cost of reading and what it yields times the cost
/// of yielding, and a plan the sum of its steps.
pub proof fn a_plan_costs_the_sum_of_its_steps(
    m: CostModel,
    ops: Seq<OperatorCost>,
    op: OperatorCost,
    fl: FloatModel,
)
    ensures
        ({
            let count = |n: usize| (fl.gives)(FloatOp::OfCount, n as u64, 0);
            let read = (fl.gives)(FloatOp::Times, count(op.input_rows), m.read_cost.bits);
            let yielded = (fl.gives)(FloatOp::Times, count(op.output_rows), m.yield_cost.bits);
            &&& operator_cost(m, op.input_rows, op.output_rows, fl) == (fl.gives)(
                FloatOp::Plus,
                read,
                yielded,
            )
            &&& plan_cost(m, ops.push(op), ops.len() + 1int, fl) == (fl.gives)(
                FloatOp::Plus,
                plan_cost(m, ops, ops.len() as int, fl),
                operator_cost(m, op.input_rows, op.output_rows, fl),
            )
            &&& plan_cost(m, Seq::empty(), 0, fl) == 0
        }),
{
    lemma_cost_of_more(m, ops, op, ops.len() as int, fl);
    assert(ops.push(op)[ops.len() as int] == op);
}

proof fn lemma_cost_of_more(
    m: CostModel,
    ops: Seq<OperatorCost>,
    op: OperatorCost,
    n: int,
    fl: FloatModel,
)
    requires
        0 <= n <= ops.len(),
    ensures
        plan_cost(m, ops.push(op), n, fl) == plan_cost(m, ops, n, fl),
    decreases n,
{
    if n > 0 {
        lemma_cost_of_more(m, ops, op, n - 1, fl);
        assert(ops.push(op)[n - 1] == ops[n - 1]);
    }
}

/// A table of a query answers to its alias, or else to its name; what is known of it is
/// what is known of the table.
pub proof fn tables_answer_to_their_aliases(
    q: SelectModel,
    stats: StatsModel,
    k: int,
    column: Seq<char>,
)
    requires
        0 <= k < q.joins.len(),
        forall|l: int|
            0 <= l < q.joins.len() && l != k ==> qualifier(#[trigger] q.joins[l]) != qualifier(
                q.joins[k],
            ),
    ensures
        qualifier(q.joins[k]) == match q.joins[k].alias {
            Some(a) => a,
            None => q.joins[k].table,
        },
        table_called(q, qualifier(q.joins[k])) == Some(q.joins[k].table),
        (query_sizes(q, stats).distinct)(qualifier(q.joins[k]), column) == match stat_of(
            stats,
            q.joins[k].table,
            column,
        ) {
            Some(d) => Some(different_values(d)),
            None => None,
        },
        (query_sizes(q, stats).rows)(qualifier(q.joins[k])) == match table_rows(
            stats,
            q.joins[k].table,
            0,
        ) {
            Some(n) => n,
            None => 1000,
        },
{
    lemma_joined_table(q, k, q.joins.len() as int);
}

proof fn lemma_joined_table(q: SelectModel, k: int, n: int)
    requires
        0 <= k < n <= q.joins.len(),
        forall|l: int|
            0 <= l < q.joins.len() && l != k ==> qualifier(#[trigger] q.joins[l]) != qualifier(
                q.joins[k],
            ),
    ensures
        joined_table(q.joins, qualifier(q.joins[k]), n) == Some(q.joins[k].table),
    decreases n,
{
    if n - 1 != k {
        lemma_joined_table(q, k, n - 1);
    }
}

/// A step of a plan is charged for reading what the step before it yields, or its own rows
/// where that is nothing, and for yielding its own; a join yields the larger of its sides.
pub proof fn a_step_reads_what_the_one_before_yields(nodes: Seq<NodeModel>, i: int)
    requires
        0 <= i < nodes.len(),
    ensures
        ({
            let ops = operators_of(nodes);
            &&& ops.len() == nodes.len()
            &&& ops[i].output_rows == node_rows(nodes[i])
            &&& i > 0 && node_rows(nodes[i - 1]) > 0 ==> ops[i].input_rows == node_rows(
                nodes[i - 1],
            )
            &&& i == 0 ==> ops[i].input_rows == node_rows(nodes[i])
            &&& ops[i].operator == OperatorType::TableScan <==> nodes[i] is Scan
            &&& ops[i].operator == OperatorType::HashJoin <==> nodes[i] is Join
            &&& ops[i].operator == OperatorType::Sort <==> nodes[i] is Sort
            &&& ops[i].operator == OperatorType::Limit <==> nodes[i] is Limit
            &&& ops[i].operator == OperatorType::Aggregate <==> nodes[i] is Aggregate
                || nodes[i] is Distinct
            &&& ops[i].operator == OperatorType::Filter <==> nodes[i] is Filter
                || nodes[i] is Project
            &&& match nodes[i] {
                NodeModel::Scan { rows, .. } => node_rows(nodes[i]) == rows,
                NodeModel::Filter { rows, .. } => node_rows(nodes[i]) == rows,
                NodeModel::Join { left_rows, right_rows, .. } => node_rows(nodes[i]) >= left_rows
                    && node_rows(nodes[i]) >= right_rows && (node_rows(nodes[i]) == left_rows
                    || node_rows(nodes[i]) == right_rows),
                NodeModel::Limit { rows, .. } => node_rows(nodes[i]) == rows,
                _ => true,
            }
        }),
{
}

/// Grouping by columns is expected to yield the root of the rows, rounded up, and at least
/// one.
pub proof fn groups_are_expected_by_the_root(q: SelectModel, rows: usize, fl: FloatModel)
    requires
        q.group_by.len() > 0,
    ensures
        grouped_rows(q, rows, fl) >= 1,
        ({
            let root = (fl.gives)(
                FloatOp::SquareRoot,
                (fl.gives)(FloatOp::OfCount, rows as u64, 0),
                0,
            );
            let n = (fl.gives)(FloatOp::ToCount, (fl.gives)(FloatOp::Ceiling, root, 0), 0);
            1 <= n <= u32::MAX ==> grouped_rows(q, rows, fl) == n
        }),
{
}

/// The orders of up to eight joins are searched where each condition tells which table it
/// needs: the joins can run in the order that is taken, and no order in which they can is
/// cheaper.
pub proof fn up_to_eight_joins_are_searched(p: JoinProblem, o: Seq<usize>)
    requires
        p.joins.len() <= 8,
        forall|k: int|
            0 <= k < p.joins.len() ==> !(shape_of(
                qualifier(#[trigger] p.joins[k]),
                p.joins[k].condition,
            ) is Unresolvable),
        p.valid(o),
    ensures
        p.valid(p.chosen()),
        !is_less(p.cost(o), p.cost(p.chosen())),
{
    assert forall|i: int| 0 <= i < p.joins.len() implies !((#[trigger] p.shape(
        i,
    )) is Unresolvable) by {
        assert(shape_of(qualifier(p.joins[i]), p.joins[i].condition) == p.shape(i));
    }
    the_cheapest_order_is_taken(p, o);
}

/// A count times one is the count.
pub open spec fn counts_times_one(fl: FloatModel) -> bool {
    forall|n: u64|
        (fl.gives)(FloatOp::Times, #[trigger] (fl.gives)(FloatOp::OfCount, n, 0), ONE)
            == (fl.gives)(FloatOp::OfCount, n, 0)
}

/// Unless it is told otherwise, a plan is charged one for each row that it reads and one for
/// each that it yields.
pub proof fn a_row_costs_one(input: usize, output: usize, fl: FloatModel)
    requires
        counts_times_one(fl),
    ensures
        operator_cost(unit_costs(), input, output, fl) == (fl.gives)(
            FloatOp::Plus,
            (fl.gives)(FloatOp::OfCount, input as u64, 0),
            (fl.gives)(FloatOp::OfCount, output as u64, 0),
        ),
{
    let read = (fl.gives)(FloatOp::OfCount, input as u64, 0);
    let yielded = (fl.gives)(FloatOp::OfCount, output as u64, 0);
    assert((fl.gives)(FloatOp::Times, read, ONE) == read);
    assert((fl.gives)(FloatOp::Times, yielded, ONE) == yielded);
}

} // verus!
