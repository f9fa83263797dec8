//! A prepared statement runs with as many parameters as it was counted to need.

use vstd::prelude::*;
use crate::execution::executor::Db;
use crate::execution::operators::Datum;
use crate::execution::prepared::{
    bound_kind, bound_list, bound_node, bound_nodes, bound_rows, bound_statement, clause_field,
    conditions_from, field_counted, fields_counted, no_counts, parameters_needed,
    placeholder_fields, right_sides, values_from, PreparedModel,
};
use crate::execution::row_codec::placeholders::{
    counted, field_substituted, mixed, placeholder, scanned, substituted, substituted_from, Counts,
    PlaceholderKind,
};
use crate::execution::row_codec::tokens::tokens_of;
use crate::execution::statements::kind_of_statement;
use crate::float::FloatModel;
use crate::optimizer::cardinality::StatsModel;
use crate::optimizer::cost_model::CostModel;
use crate::optimizer::join_reorder::{dotted, every_join_is_planned_once, first_dot, JoinProblem};
use crate::optimizer::planner::{
    aggregate_nodes, comparison_split, cut_rows, distinct_nodes, filter_nodes, join_nodes,
    join_problem, limit_nodes, project_nodes, shape_nodes, shaped_rows, sort_nodes, source_nodes,
    source_rows, NodeModel,
};
use crate::sql::parser::{JoinModel, SelectModel, StatementModel};
use crate::text::is_digit;

verus! {

// ---- what is counted --------------------------------------------------------------------

/// How many of the tokens from the `i`-th on are `?`.
pub open spec fn questions(tokens: Seq<Seq<char>>, i: int) -> int
    decreases tokens.len() - i,
{
    if 0 <= i < tokens.len() {
        questions(tokens, i + 1) + if placeholder(tokens[i]) == Some(PlaceholderKind::Positional) {
            1int
        } else {
            0
        }
    } else {
        0
    }
}

/// Every `$N` among some tokens is at most `$n`.
pub open spec fn within(tokens: Seq<Seq<char>>, n: int) -> bool {
    forall|k: int|
        0 <= k < tokens.len() ==> match placeholder(#[trigger] tokens[k]) {
            Some(PlaceholderKind::Indexed(m)) => m <= n,
            _ => true,
        }
}

/// How many `?` the texts from the `i`-th on have.
pub open spec fn asked(fields: Seq<Seq<char>>, i: int) -> int
    decreases fields.len() - i,
{
    if 0 <= i < fields.len() {
        questions(tokens_of(fields[i]), 0) + asked(fields, i + 1)
    } else {
        0
    }
}

/// Every `$N` in some texts is at most `$n`.
pub open spec fn all_within(fields: Seq<Seq<char>>, n: int) -> bool {
    forall|k: int| 0 <= k < fields.len() ==> within(tokens_of(#[trigger] fields[k]), n)
}

proof fn lemma_questions(tokens: Seq<Seq<char>>, i: int)
    ensures
        questions(tokens, i) >= 0,
    decreases tokens.len() - i,
{
    if 0 <= i < tokens.len() {
        lemma_questions(tokens, i + 1);
    }
}

proof fn lemma_asked(fields: Seq<Seq<char>>, i: int)
    ensures
        asked(fields, i) >= 0,
    decreases fields.len() - i,
{
    if 0 <= i < fields.len() {
        lemma_questions(tokens_of(fields[i]), 0);
        lemma_asked(fields, i + 1);
    }
}

proof fn lemma_asked_tail(a: Seq<Seq<char>>, b: Seq<Seq<char>>, i: int)
    requires
        0 <= i <= b.len(),
    ensures
        asked(a + b, a.len() + i) == asked(b, i),
    decreases b.len() - i,
{
    if i < b.len() {
        lemma_asked_tail(a, b, i + 1);
        assert((a + b)[a.len() + i] == b[i]);
    }
}

proof fn lemma_asked_both(a: Seq<Seq<char>>, b: Seq<Seq<char>>, i: int)
    requires
        0 <= i <= a.len(),
    ensures
        asked(a + b, i) == asked(a, i) + asked(b, 0),
    decreases a.len() - i,
{
    if i < a.len() {
        lemma_asked_both(a, b, i + 1);
        assert((a + b)[i] == a[i]);
    } else {
        lemma_asked_tail(a, b, 0);
    }
}

proof fn lemma_both_within(a: Seq<Seq<char>>, b: Seq<Seq<char>>, n: int)
    requires
        all_within(a + b, n),
    ensures
        all_within(a, n),
        all_within(b, n),
{
    assert forall|k: int| 0 <= k < a.len() implies within(tokens_of(#[trigger] a[k]), n) by {
        assert((a + b)[k] == a[k]);
    }
    assert forall|k: int| 0 <= k < b.len() implies within(tokens_of(#[trigger] b[k]), n) by {
        assert((a + b)[a.len() + k] == b[k]);
    }
}

proof fn lemma_scan_counts(tokens: Seq<Seq<char>>, i: int, c: Counts)
    requires
        0 <= i <= tokens.len(),
        i == tokens.len() || !mixed(scanned(tokens, i, c)),
    ensures
        scanned(tokens, i, c).positional == c.positional + questions(tokens, i),
        scanned(tokens, i, c).indexed >= c.indexed,
        forall|k: int|
            i <= k < tokens.len() ==> match placeholder(#[trigger] tokens[k]) {
                Some(PlaceholderKind::Indexed(m)) => m <= scanned(tokens, i, c).indexed,
                _ => true,
            },
    decreases tokens.len() - i,
{
    if i < tokens.len() {
        let next = counted(tokens[i], c);
        lemma_scan_counts(tokens, i + 1, next);
    }
}

proof fn lemma_within_more(tokens: Seq<Seq<char>>, m: int, n: int)
    requires
        within(tokens, m),
        m <= n,
    ensures
        within(tokens, n),
{
    assert forall|k: int| 0 <= k < tokens.len() implies match placeholder(#[trigger] tokens[k]) {
        Some(PlaceholderKind::Indexed(x)) => x <= n,
        _ => true,
    } by {}
}

proof fn lemma_fields_counted(fields: Seq<Seq<char>>, i: int, c: Counts)
    requires
        0 <= i <= fields.len(),
    ensures
        fields_counted(fields, i, c) matches Ok(end) ==> {
            &&& end.positional == c.positional + asked(fields, i)
            &&& end.indexed >= c.indexed
            &&& forall|k: int|
                i <= k < fields.len() ==> within(tokens_of(#[trigger] fields[k]), end.indexed)
        },
    decreases fields.len() - i,
{
    if i < fields.len() {
        if let Ok(next) = field_counted(fields[i], c) {
            let tokens = tokens_of(fields[i]);
            lemma_scan_counts(tokens, 0, c);
            lemma_fields_counted(fields, i + 1, next);
            if let Ok(end) = fields_counted(fields, i, c) {
                assert(within(tokens, next.indexed));
                lemma_within_more(tokens, next.indexed, end.indexed);
            }
        }
    }
}

/// A statement that needs `n` parameters has at most `n` times `?` in its texts, and
/// no `$N` beyond `$n`.
pub proof fn needed_parameters_are_enough(s: StatementModel)
    ensures
        parameters_needed(s) matches Ok(n) ==> {
            &&& asked(placeholder_fields(s), 0) <= n
            &&& all_within(placeholder_fields(s), n)
        },
{
    let fields = placeholder_fields(s);
    lemma_fields_counted(fields, 0, no_counts());
    if let Ok(n) = parameters_needed(s) {
        let end = fields_counted(fields, 0, no_counts())->Ok_0;
        assert forall|k: int| 0 <= k < fields.len() implies within(
            tokens_of(#[trigger] fields[k]),
            n,
        ) by {
            lemma_within_more(tokens_of(fields[k]), end.indexed, n);
        }
    }
}

// ---- what is put in ---------------------------------------------------------------------

proof fn lemma_tokens_bind(
    tokens: Seq<Seq<char>>,
    i: int,
    done: Seq<Seq<char>>,
    params: Seq<Datum>,
    next: int,
    fl: FloatModel,
)
    requires
        0 <= i <= tokens.len(),
        0 <= next,
        next + questions(tokens, i) <= params.len(),
        within(tokens, params.len() as int),
    ensures
        ({
            let s = substituted_from(tokens, i, done, params, next, fl);
            s.text is Ok && s.next == next + questions(tokens, i)
        }),
    decreases tokens.len() - i,
{
    if i < tokens.len() {
        lemma_questions(tokens, i + 1);
        let s = substituted(tokens[i], params, next, fl);
        assert(s.text is Ok);
        lemma_tokens_bind(tokens, i + 1, done.push(s.text->Ok_0), params, s.next, fl);
    }
}

proof fn lemma_field_binds(field: Seq<char>, params: Seq<Datum>, next: int, fl: FloatModel)
    requires
        0 <= next,
        next + questions(tokens_of(field), 0) <= params.len(),
        within(tokens_of(field), params.len() as int),
    ensures
        field_substituted(field, params, next, fl).text is Ok,
        field_substituted(field, params, next, fl).next == next + questions(tokens_of(field), 0),
{
    lemma_tokens_bind(tokens_of(field), 0, Seq::empty(), params, next, fl);
}

proof fn lemma_list_binds(
    fields: Seq<Seq<char>>,
    i: int,
    done: Seq<Seq<char>>,
    params: Seq<Datum>,
    next: int,
    fl: FloatModel,
)
    requires
        0 <= i <= fields.len(),
        0 <= next,
        next + asked(fields, i) <= params.len(),
        all_within(fields, params.len() as int),
    ensures
        bound_list(fields, i, done, params, next, fl).texts is Ok,
        bound_list(fields, i, done, params, next, fl).next == next + asked(fields, i),
    decreases fields.len() - i,
{
    if i < fields.len() {
        lemma_asked(fields, i + 1);
        lemma_questions(tokens_of(fields[i]), 0);
        lemma_field_binds(fields[i], params, next, fl);
        let s = field_substituted(fields[i], params, next, fl);
        lemma_list_binds(fields, i + 1, done.push(s.text->Ok_0), params, s.next, fl);
    }
}

proof fn lemma_rows_bind(
    values: Seq<Seq<Seq<char>>>,
    i: int,
    done: Seq<Seq<Seq<char>>>,
    params: Seq<Datum>,
    next: int,
    fl: FloatModel,
)
    requires
        0 <= i <= values.len(),
        0 <= next,
        next + asked(values_from(values, i), 0) <= params.len(),
        all_within(values_from(values, i), params.len() as int),
    ensures
        bound_rows(values, i, done, params, next, fl) is Ok,
    decreases values.len() - i,
{
    if i < values.len() {
        let rest = values_from(values, i + 1);
        lemma_asked_both(values[i], rest, 0);
        lemma_both_within(values[i], rest, params.len() as int);
        lemma_asked(values[i], 0);
        lemma_asked(rest, 0);
        lemma_list_binds(values[i], 0, Seq::empty(), params, next, fl);
        let b = bound_list(values[i], 0, Seq::empty(), params, next, fl);
        lemma_rows_bind(values, i + 1, done.push(b.texts->Ok_0), params, b.next, fl);
    }
}

// ---- plans ------------------------------------------------------------------------------

/// The text of a step in which a placeholder can stand.
pub open spec fn node_fields(n: NodeModel) -> Seq<Seq<char>> {
    match n {
        NodeModel::Filter { predicate, .. } => seq![predicate],
        NodeModel::Join { condition, .. } => clause_field(condition),
        NodeModel::Aggregate { having, .. } => clause_field(having),
        _ => Seq::empty(),
    }
}

/// How many `?` the steps from the `i`-th on have.
pub open spec fn steps_ask(nodes: Seq<NodeModel>, i: int) -> int
    decreases nodes.len() - i,
{
    if 0 <= i < nodes.len() {
        asked(node_fields(nodes[i]), 0) + steps_ask(nodes, i + 1)
    } else {
        0
    }
}

/// Whether the parts of a filter are those of its predicate.
spec fn split_fits(n: NodeModel) -> bool {
    match n {
        NodeModel::Filter { predicate, split, .. } => split == comparison_split(predicate),
        _ => true,
    }
}

proof fn lemma_node_binds(n: NodeModel, params: Seq<Datum>, next: int, fl: FloatModel)
    requires
        0 <= next,
        next + asked(node_fields(n), 0) <= params.len(),
        all_within(node_fields(n), params.len() as int),
        split_fits(n),
    ensures
        bound_node(n, params, next, fl).node is Ok,
        next <= bound_node(n, params, next, fl).next <= next + asked(node_fields(n), 0),
{
    reveal_with_fuel(asked, 2);
    match n {
        NodeModel::Filter { predicate, split, .. } => {
            assert(node_fields(n)[0] == predicate);
            let t = tokens_of(predicate);
            lemma_questions(t, 0);
            match split {
                Some(p) => {
                    reveal_with_fuel(questions, 4);
                    assert(placeholder(t[0]) == placeholder(p.0));
                    assert(placeholder(t[2]) == placeholder(p.2));
                },
                None => {
                    lemma_field_binds(predicate, params, next, fl);
                },
            }
        },
        NodeModel::Join { condition: Some(c), .. } => {
            assert(node_fields(n)[0] == c);
            lemma_questions(tokens_of(c), 0);
            lemma_field_binds(c, params, next, fl);
        },
        NodeModel::Aggregate { having: Some(h), .. } => {
            assert(node_fields(n)[0] == h);
            lemma_questions(tokens_of(h), 0);
            lemma_field_binds(h, params, next, fl);
        },
        _ => {},
    }
}

proof fn lemma_steps_ask(nodes: Seq<NodeModel>, i: int)
    ensures
        steps_ask(nodes, i) >= 0,
    decreases nodes.len() - i,
{
    if 0 <= i < nodes.len() {
        lemma_asked(node_fields(nodes[i]), 0);
        lemma_steps_ask(nodes, i + 1);
    }
}

/// Whether every step can take its parameters: there is one for each `$N`.
spec fn steps_within(nodes: Seq<NodeModel>, n: int) -> bool {
    forall|k: int|
        0 <= k < nodes.len() ==> all_within(node_fields(#[trigger] nodes[k]), n) && split_fits(
            nodes[k],
        )
}

proof fn lemma_nodes_bind(
    nodes: Seq<NodeModel>,
    i: int,
    done: Seq<NodeModel>,
    params: Seq<Datum>,
    next: int,
    fl: FloatModel,
)
    requires
        0 <= i <= nodes.len(),
        0 <= next,
        next + steps_ask(nodes, i) <= params.len(),
        steps_within(nodes, params.len() as int),
    ensures
        bound_nodes(nodes, i, done, params, next, fl) is Ok,
    decreases nodes.len() - i,
{
    if i < nodes.len() {
        lemma_steps_ask(nodes, i + 1);
        lemma_asked(node_fields(nodes[i]), 0);
        lemma_node_binds(nodes[i], params, next, fl);
        let b = bound_node(nodes[i], params, next, fl);
        lemma_nodes_bind(nodes, i + 1, done.push(b.node->Ok_0), params, b.next, fl);
    }
}

proof fn lemma_steps_tail(a: Seq<NodeModel>, b: Seq<NodeModel>, i: int)
    requires
        0 <= i <= b.len(),
    ensures
        steps_ask(a + b, a.len() + i) == steps_ask(b, i),
    decreases b.len() - i,
{
    if i < b.len() {
        lemma_steps_tail(a, b, i + 1);
        assert((a + b)[a.len() + i] == b[i]);
    }
}

proof fn lemma_steps_both(a: Seq<NodeModel>, b: Seq<NodeModel>, i: int)
    requires
        0 <= i <= a.len(),
    ensures
        steps_ask(a + b, i) == steps_ask(a, i) + steps_ask(b, 0),
    decreases a.len() - i,
{
    if i < a.len() {
        lemma_steps_both(a, b, i + 1);
        assert((a + b)[i] == a[i]);
    } else {
        lemma_steps_tail(a, b, 0);
    }
}

proof fn lemma_steps_within_both(a: Seq<NodeModel>, b: Seq<NodeModel>, n: int)
    requires
        steps_within(a, n),
        steps_within(b, n),
    ensures
        steps_within(a + b, n),
{
    assert forall|k: int| 0 <= k < (a + b).len() implies all_within(
        node_fields(#[trigger] (a + b)[k]),
        n,
    ) && split_fits((a + b)[k]) by {
        if k < a.len() {
            assert((a + b)[k] == a[k]);
        } else {
            assert((a + b)[k] == b[k - a.len()]);
        }
    }
}

/// Steps in which no placeholder can stand.
spec fn take_nothing(nodes: Seq<NodeModel>) -> bool {
    forall|k: int|
        0 <= k < nodes.len() ==> node_fields(#[trigger] nodes[k]) == Seq::<Seq<char>>::empty()
            && split_fits(nodes[k])
}

proof fn lemma_take_nothing(nodes: Seq<NodeModel>, i: int, n: int)
    requires
        take_nothing(nodes),
        0 <= i,
    ensures
        steps_ask(nodes, i) == 0,
        steps_within(nodes, n),
    decreases nodes.len() - i,
{
    if i < nodes.len() {
        lemma_take_nothing(nodes, i + 1, n);
        assert(node_fields(nodes[i]).len() == 0);
    }
}

// ---- joins in another order -------------------------------------------------------------

/// The sum of some weights.
spec fn sum_of(w: Seq<int>, n: int) -> int
    decreases n,
{
    if n <= 0 || n > w.len() {
        0
    } else {
        sum_of(w, n - 1) + w[n - 1]
    }
}

/// The sum of the weights that an order names, the first `n` of them.
spec fn sum_in(order: Seq<usize>, w: Seq<int>, n: int) -> int
    decreases n,
{
    if n <= 0 || n > order.len() {
        0
    } else {
        sum_in(order, w, n - 1) + w[order[n - 1] as int]
    }
}

proof fn lemma_sum_without(w: Seq<int>, j: int, n: int)
    requires
        0 <= j < w.len(),
        0 <= n <= w.len(),
    ensures
        sum_of(w.update(j, 0), n) == sum_of(w, n) - if j < n { w[j] } else { 0int },
    decreases n,
{
    if n > 0 {
        lemma_sum_without(w, j, n - 1);
    }
}

proof fn lemma_sum_in_without(order: Seq<usize>, w: Seq<int>, j: int, n: int)
    requires
        0 <= j < w.len(),
        0 <= n <= order.len(),
        forall|k: int| 0 <= k < n ==> #[trigger] order[k] != j && order[k] < w.len(),
    ensures
        sum_in(order, w.update(j, 0), n) == sum_in(order, w, n),
    decreases n,
{
    if n > 0 {
        lemma_sum_in_without(order, w, j, n - 1);
        assert(order[n - 1] != j);
    }
}

proof fn lemma_order_sums(order: Seq<usize>, w: Seq<int>, n: int)
    requires
        0 <= n <= order.len(),
        forall|k: int| 0 <= k < order.len() ==> (#[trigger] order[k]) < w.len(),
        forall|k: int, l: int|
            0 <= k < l < order.len() ==> #[trigger] order[k] != #[trigger] order[l],
        forall|i: int| 0 <= i < w.len() ==> #[trigger] w[i] >= 0,
    ensures
        sum_in(order, w, n) <= sum_of(w, w.len() as int),
    decreases n,
{
    if n > 0 {
        let j = order[n - 1] as int;
        let less = w.update(j, 0);
        assert forall|k: int| 0 <= k < n - 1 implies #[trigger] order[k] != j && order[k]
            < w.len() by {
            assert(order[k] != order[n - 1]);
        }
        lemma_order_sums(order, less, n - 1);
        lemma_sum_in_without(order, w, j, n - 1);
        lemma_sum_without(w, j, w.len() as int);
    } else {
        lemma_sum_positive(w, w.len() as int);
    }
}

proof fn lemma_sum_positive(w: Seq<int>, n: int)
    requires
        forall|i: int| 0 <= i < w.len() ==> #[trigger] w[i] >= 0,
        n <= w.len(),
    ensures
        sum_of(w, n) >= 0,
    decreases n,
{
    if n > 0 {
        lemma_sum_positive(w, n - 1);
        assert(w[n - 1] >= 0);
    }
}

/// How many `?` the condition of each join has.
spec fn join_weights(joins: Seq<JoinModel>) -> Seq<int> {
    joins.map_values(|j: JoinModel| asked(clause_field(j.condition), 0))
}

proof fn lemma_conditions_ask(joins: Seq<JoinModel>, i: int)
    requires
        0 <= i <= joins.len(),
    ensures
        asked(conditions_from(joins, i), 0) == sum_of(join_weights(joins), joins.len() as int)
            - sum_of(join_weights(joins), i),
    decreases joins.len() - i,
{
    let w = join_weights(joins);
    if i < joins.len() {
        lemma_conditions_ask(joins, i + 1);
        let rest = conditions_from(joins, i + 1);
        let own = clause_field(joins[i].condition);
        lemma_asked_both(own, rest, 0);
        assert(conditions_from(joins, i) =~= own + rest);
        assert(w[i] == asked(own, 0));
    }
}

proof fn lemma_condition_is_there(joins: Seq<JoinModel>, i: int, k: int, n: int)
    requires
        0 <= i <= k < joins.len(),
        all_within(conditions_from(joins, i), n),
    ensures
        all_within(clause_field(joins[k].condition), n),
    decreases k - i,
{
    let rest = conditions_from(joins, i + 1);
    let own = clause_field(joins[i].condition);
    assert(conditions_from(joins, i) =~= own + rest);
    lemma_both_within(own, rest, n);
    if i < k {
        lemma_condition_is_there(joins, i + 1, k, n);
    }
}

proof fn lemma_join_nodes(p: JoinProblem, order: Seq<usize>, n: int, i: int)
    requires
        p.distinct_joins(order),
        all_within(conditions_from(p.joins, 0), n),
        0 <= i <= order.len(),
    ensures
        steps_within(join_nodes(p.joins, p.plan(order)), n),
        steps_ask(join_nodes(p.joins, p.plan(order)), i) == sum_in(
            order,
            join_weights(p.joins),
            order.len() as int,
        ) - sum_in(order, join_weights(p.joins), i),
    decreases order.len() - i,
{
    let nodes = join_nodes(p.joins, p.plan(order));
    let w = join_weights(p.joins);
    assert forall|k: int| 0 <= k < nodes.len() implies all_within(
        node_fields(#[trigger] nodes[k]),
        n,
    ) && split_fits(nodes[k]) by {
        assert(order[k] < p.joins.len());
        lemma_condition_is_there(p.joins, 0, order[k] as int, n);
    }
    if i < order.len() {
        lemma_join_nodes(p, order, n, i + 1);
        assert(order[i] < p.joins.len());
        assert(node_fields(nodes[i]) == clause_field(p.joins[order[i] as int].condition));
        assert(w[order[i] as int] == asked(node_fields(nodes[i]), 0));
    }
}

/// The steps of a query behind the grouping.
spec fn late_nodes(q: SelectModel, rows: usize) -> Seq<NodeModel> {
    sort_nodes(q, rows) + project_nodes(q, rows) + distinct_nodes(q, rows) + limit_nodes(
        q,
        cut_rows(q, rows),
    )
}

proof fn lemma_shape_takes(q: SelectModel, rows: usize, n: int)
    requires
        all_within(clause_field(q.having), n),
    ensures
        shape_nodes(q, rows) == aggregate_nodes(q, rows) + late_nodes(q, rows),
        take_nothing(late_nodes(q, rows)),
        steps_within(aggregate_nodes(q, rows), n),
        0 <= steps_ask(aggregate_nodes(q, rows), 0) <= asked(clause_field(q.having), 0),
{
    assert(take_nothing(sort_nodes(q, rows)));
    assert(take_nothing(project_nodes(q, rows)));
    assert(take_nothing(distinct_nodes(q, rows)));
    assert(take_nothing(limit_nodes(q, cut_rows(q, rows))));
    assert(shape_nodes(q, rows) =~= aggregate_nodes(q, rows) + late_nodes(q, rows));
    let grouping = aggregate_nodes(q, rows);
    lemma_asked(clause_field(q.having), 0);
    reveal_with_fuel(steps_ask, 2);
    if grouping.len() > 0 {
        assert(node_fields(grouping[0]) == clause_field(q.having));
    }
}

proof fn lemma_plan_binds(
    db: Db,
    q: SelectModel,
    params: Seq<Datum>,
    fl: FloatModel,
)
    requires
        q.joins.len() <= usize::MAX,
        asked(placeholder_fields(StatementModel::Select(q)), 0) <= params.len(),
        all_within(placeholder_fields(StatementModel::Select(q)), params.len() as int),
    ensures
        kind_of_statement(db, StatementModel::Select(q), fl) matches Ok(k) ==> bound_kind(
            k,
            params,
            fl,
        ) is Ok,
{
    let n = params.len() as int;
    let stats = db.stats;
    let p = join_problem(q, stats, db.join_costs, fl);
    let conditions = conditions_from(q.joins, 0);
    let clause = clause_field(q.where_clause);
    let having = clause_field(q.having);
    lemma_asked_both(conditions + clause, having, 0);
    lemma_both_within(conditions + clause, having, n);
    lemma_asked_both(conditions, clause, 0);
    lemma_both_within(conditions, clause, n);
    every_join_is_planned_once(p);
    let order = p.chosen();
    let w = join_weights(q.joins);
    assert forall|i: int| 0 <= i < w.len() implies #[trigger] w[i] >= 0 by {
        lemma_asked(clause_field(q.joins[i].condition), 0);
    }
    lemma_order_sums(order, w, order.len() as int);
    lemma_conditions_ask(q.joins, 0);
    lemma_join_nodes(p, order, n, 0);
    let rows = source_rows(q, stats, db.join_costs, fl);
    let scan = seq![
        NodeModel::Scan {
            table_id: 0,
            table_name: q.from,
            alias: q.from_alias,
            rows: p.from_rows,
        },
    ];
    let joins = join_nodes(q.joins, p.plan(order));
    let filter = filter_nodes(q, rows);
    let shape = shape_nodes(q, shaped_rows(q, rows, fl));
    let grouping = aggregate_nodes(q, shaped_rows(q, rows, fl));
    let late = late_nodes(q, shaped_rows(q, rows, fl));
    assert(take_nothing(scan));
    lemma_take_nothing(scan, 0, n);
    lemma_shape_takes(q, shaped_rows(q, rows, fl), n);
    lemma_take_nothing(late, 0, n);
    lemma_steps_both(grouping, late, 0);
    lemma_steps_within_both(grouping, late, n);
    reveal_with_fuel(steps_ask, 2);
    assert(steps_within(filter, n)) by {
        assert forall|k: int| 0 <= k < filter.len() implies all_within(
            node_fields(#[trigger] filter[k]),
            n,
        ) && split_fits(filter[k]) by {
            assert(node_fields(filter[k]) =~= clause);
        }
    }
    assert(steps_ask(filter, 0) == asked(clause, 0)) by {
        if q.where_clause is Some {
            assert(node_fields(filter[0]) =~= clause);
        }
    }
    lemma_steps_both(scan, joins, 0);
    lemma_steps_both(scan + joins, filter, 0);
    lemma_steps_both(scan + joins + filter, shape, 0);
    lemma_steps_within_both(scan, joins, n);
    lemma_steps_within_both(scan + joins, filter, n);
    lemma_steps_within_both(scan + joins + filter, shape, n);
    let nodes = source_nodes(q, stats, db.join_costs, fl) + shape;
    assert(nodes == scan + joins + filter + shape);
    lemma_nodes_bind(nodes, 0, Seq::empty(), params, 0, fl);
}

// ---- statements -------------------------------------------------------------------------

/// A prepared statement takes as many parameters as it was counted to need, and
/// more: every placeholder finds its parameter.
pub proof fn prepared_statements_take_their_parameters(
    db: Db,
    s: StatementModel,
    params: Seq<Datum>,
    fl: FloatModel,
)
    requires
        s matches StatementModel::Select(q) ==> q.joins.len() <= usize::MAX,
        match (parameters_needed(s), kind_of_statement(db, s, fl)) {
            (Ok(n), Ok(_)) => n <= params.len() && n <= usize::MAX,
            _ => false,
        },
    ensures
        bound_statement(
            kind_of_statement(db, s, fl)->Ok_0,
            parameters_needed(s)->Ok_0 as usize,
            params,
            fl,
        ) is Ok,
{
    let fields = placeholder_fields(s);
    let n = parameters_needed(s)->Ok_0;
    needed_parameters_are_enough(s);
    lemma_asked(fields, 0);
    assert forall|k: int| 0 <= k < fields.len() implies within(
        tokens_of(#[trigger] fields[k]),
        params.len() as int,
    ) by {
        lemma_within_more(tokens_of(fields[k]), n, params.len() as int);
    }
    match s {
        StatementModel::Select(q) => {
            lemma_plan_binds(db, q, params, fl);
        },
        StatementModel::Insert(q) => {
            lemma_rows_bind(q.values, 0, Seq::empty(), params, 0, fl);
        },
        StatementModel::Update(q) => {
            let sides = right_sides(q.assignments);
            let clause = clause_field(q.where_clause);
            lemma_asked_both(sides, clause, 0);
            lemma_both_within(sides, clause, params.len() as int);
            lemma_asked(sides, 0);
            lemma_asked(clause, 0);
            lemma_list_binds(sides, 0, Seq::empty(), params, 0, fl);
            if let Some(p) = q.where_clause {
                reveal_with_fuel(asked, 2);
                assert(clause[0] == p);
                lemma_field_binds(p, params, asked(sides, 0), fl);
            }
        },
        StatementModel::Delete(q) => {
            if let Some(p) = q.where_clause {
                reveal_with_fuel(asked, 2);
                assert(fields[0] == p);
                lemma_field_binds(p, params, 0, fl);
            }
        },
        _ => {},
    }
}

// ---- parameters beyond those needed -----------------------------------------------------

/// Whether some parameters are the first of others.
spec fn begins(few: Seq<Datum>, params: Seq<Datum>) -> bool {
    few.len() <= params.len() && few == params.take(few.len() as int)
}

proof fn lemma_more_for_token(
    token: Seq<char>,
    few: Seq<Datum>,
    params: Seq<Datum>,
    next: int,
    fl: FloatModel,
)
    requires
        begins(few, params),
        0 <= next,
        substituted(token, few, next, fl).text is Ok,
    ensures
        substituted(token, params, next, fl) == substituted(token, few, next, fl),
        substituted(token, few, next, fl).next >= next,
{
}

proof fn lemma_more_for_tokens(
    tokens: Seq<Seq<char>>,
    i: int,
    done: Seq<Seq<char>>,
    few: Seq<Datum>,
    params: Seq<Datum>,
    next: int,
    fl: FloatModel,
)
    requires
        begins(few, params),
        0 <= next,
        0 <= i,
        substituted_from(tokens, i, done, few, next, fl).text is Ok,
    ensures
        substituted_from(tokens, i, done, params, next, fl) == substituted_from(
            tokens,
            i,
            done,
            few,
            next,
            fl,
        ),
        substituted_from(tokens, i, done, few, next, fl).next >= next,
    decreases tokens.len() - i,
{
    if i < tokens.len() {
        lemma_more_for_token(tokens[i], few, params, next, fl);
        let s = substituted(tokens[i], few, next, fl);
        lemma_more_for_tokens(
            tokens,
            i + 1,
            done.push(s.text->Ok_0),
            few,
            params,
            s.next,
            fl,
        );
    }
}

proof fn lemma_more_for_list(
    fields: Seq<Seq<char>>,
    i: int,
    done: Seq<Seq<char>>,
    few: Seq<Datum>,
    params: Seq<Datum>,
    next: int,
    fl: FloatModel,
)
    requires
        begins(few, params),
        0 <= next,
        0 <= i,
        bound_list(fields, i, done, few, next, fl).texts is Ok,
    ensures
        bound_list(fields, i, done, params, next, fl) == bound_list(
            fields,
            i,
            done,
            few,
            next,
            fl,
        ),
        bound_list(fields, i, done, few, next, fl).next >= next,
    decreases fields.len() - i,
{
    if i < fields.len() {
        lemma_more_for_tokens(tokens_of(fields[i]), 0, Seq::empty(), few, params, next, fl);
        let s = field_substituted(fields[i], few, next, fl);
        lemma_more_for_list(fields, i + 1, done.push(s.text->Ok_0), few, params, s.next, fl);
    }
}

proof fn lemma_more_for_rows(
    values: Seq<Seq<Seq<char>>>,
    i: int,
    done: Seq<Seq<Seq<char>>>,
    few: Seq<Datum>,
    params: Seq<Datum>,
    next: int,
    fl: FloatModel,
)
    requires
        begins(few, params),
        0 <= next,
        0 <= i,
        bound_rows(values, i, done, few, next, fl) is Ok,
    ensures
        bound_rows(values, i, done, params, next, fl) == bound_rows(
            values,
            i,
            done,
            few,
            next,
            fl,
        ),
    decreases values.len() - i,
{
    if i < values.len() {
        lemma_more_for_list(values[i], 0, Seq::empty(), few, params, next, fl);
        let b = bound_list(values[i], 0, Seq::empty(), few, next, fl);
        lemma_more_for_rows(values, i + 1, done.push(b.texts->Ok_0), few, params, b.next, fl);
    }
}

proof fn lemma_more_for_nodes(
    nodes: Seq<NodeModel>,
    i: int,
    done: Seq<NodeModel>,
    few: Seq<Datum>,
    params: Seq<Datum>,
    next: int,
    fl: FloatModel,
)
    requires
        begins(few, params),
        0 <= next,
        0 <= i,
        bound_nodes(nodes, i, done, few, next, fl) is Ok,
    ensures
        bound_nodes(nodes, i, done, params, next, fl) == bound_nodes(
            nodes,
            i,
            done,
            few,
            next,
            fl,
        ),
    decreases nodes.len() - i,
{
    if i < nodes.len() {
        let b = bound_node(nodes[i], few, next, fl);
        match nodes[i] {
            NodeModel::Filter { predicate, split, .. } => match split {
                Some(t) => {
                    lemma_more_for_token(t.0, few, params, next, fl);
                    let l = substituted(t.0, few, next, fl);
                    lemma_more_for_token(t.2, few, params, l.next, fl);
                },
                None => {
                    lemma_more_for_tokens(
                        tokens_of(predicate),
                        0,
                        Seq::empty(),
                        few,
                        params,
                        next,
                        fl,
                    );
                },
            },
            NodeModel::Join { condition: Some(c), .. } => {
                lemma_more_for_tokens(tokens_of(c), 0, Seq::empty(), few, params, next, fl);
            },
            NodeModel::Aggregate { having: Some(h), .. } => {
                lemma_more_for_tokens(tokens_of(h), 0, Seq::empty(), few, params, next, fl);
            },
            _ => {},
        }
        lemma_more_for_nodes(nodes, i + 1, done.push(b.node->Ok_0), few, params, b.next, fl);
    }
}

/// Parameters beyond those that a prepared statement was counted to need change nothing:
/// what is run is the statement with the needed ones put in.
pub proof fn further_parameters_change_nothing(
    db: Db,
    s: StatementModel,
    params: Seq<Datum>,
    fl: FloatModel,
)
    requires
        s matches StatementModel::Select(q) ==> q.joins.len() <= usize::MAX,
        match (parameters_needed(s), kind_of_statement(db, s, fl)) {
            (Ok(n), Ok(_)) => n <= params.len() && n <= usize::MAX,
            _ => false,
        },
    ensures
        ({
            let k = kind_of_statement(db, s, fl)->Ok_0;
            let n = parameters_needed(s)->Ok_0;
            bound_statement(k, n as usize, params, fl) == bound_statement(
                k,
                n as usize,
                params.take(n),
                fl,
            )
        }),
{
    let k = kind_of_statement(db, s, fl)->Ok_0;
    let n = parameters_needed(s)->Ok_0;
    lemma_asked(placeholder_fields(s), 0);
    needed_parameters_are_enough(s);
    let few = params.take(n);
    prepared_statements_take_their_parameters(db, s, few, fl);
    match k {
        PreparedModel::Select(p) => {
            lemma_more_for_nodes(p.nodes, 0, Seq::empty(), few, params, 0, fl);
        },
        PreparedModel::Insert(q) => {
            lemma_more_for_rows(q.values, 0, Seq::empty(), few, params, 0, fl);
        },
        PreparedModel::Update(q) => {
            let sides = right_sides(q.assignments);
            lemma_more_for_list(sides, 0, Seq::empty(), few, params, 0, fl);
            let b = bound_list(sides, 0, Seq::empty(), few, 0, fl);
            if let Some(p) = q.where_clause {
                lemma_more_for_tokens(tokens_of(p), 0, Seq::empty(), few, params, b.next, fl);
            }
        },
        PreparedModel::Delete(q) => {
            if let Some(p) = q.where_clause {
                lemma_more_for_tokens(tokens_of(p), 0, Seq::empty(), few, params, 0, fl);
            }
        },
    }
}

proof fn lemma_first_dot(s: Seq<char>, i: int)
    requires
        0 <= i <= s.len(),
    ensures
        first_dot(s, i) < s.len() ==> 0 <= first_dot(s, i) && s[first_dot(s, i)] == '.',
    decreases s.len() - i,
{
    if i < s.len() && s[i] != '.' {
        lemma_first_dot(s, i + 1);
    }
}

proof fn lemma_no_dot(token: Seq<char>)
    requires
        placeholder(token) is Some,
    ensures
        dotted(token) is None,
{
    lemma_first_dot(token, 0);
    reveal_strlit("?");
    let k = first_dot(token, 0);
    if k < token.len() {
        if token == "?"@ {
            assert(token[k] == '?');
        } else if k > 0 {
            assert(token.skip(1)[k - 1] == token[k]);
            assert(is_digit('.'));
        }
    }
}

/// Parameters are taken in the order of the statement: where a placeholder stands
/// beside an operator in the condition of a join, the joins are planned as written.
pub proof fn parameters_are_taken_in_order(
    q: SelectModel,
    stats: StatsModel,
    costs: CostModel,
    fl: FloatModel,
    i: int,
)
    requires
        0 <= i < q.joins.len(),
        match q.joins[i].condition {
            Some(c) => {
                let t = tokens_of(c);
                t.len() != 3 || placeholder(t[0]) is Some || placeholder(t[2]) is Some
            },
            None => false,
        },
    ensures
        join_problem(q, stats, costs, fl).chosen() == join_problem(
            q,
            stats,
            costs,
            fl,
        ).as_written(),
{
    let p = join_problem(q, stats, costs, fl);
    let t = tokens_of(q.joins[i].condition->0);
    if t.len() == 3 {
        if placeholder(t[0]) is Some {
            lemma_no_dot(t[0]);
        } else {
            lemma_no_dot(t[2]);
        }
    }
    assert(p.shape(i) is Unresolvable);
}

} // verus!
