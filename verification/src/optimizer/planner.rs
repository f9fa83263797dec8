//! From a parsed query to the steps that answer it.

use vstd::prelude::*;
use crate::error::{DatabaseError, Fault};
use crate::execution::aggregate::{aggregate_call, optional_text, parse_aggregate};
use crate::execution::grouping::{find_text, text_from};
use crate::execution::operators::{Datum, Value};
use crate::execution::row_codec::ordering::{key_models, order_by_keys, parse_order_by, SortKey};
use crate::execution::row_codec::tokens::{split_comparison, tokens_of};
use crate::float::{FloatModel, FloatOp, Floats, F64};
use crate::optimizer::cardinality::{
    different_values, placeable, scale_rows, scaled_rows, selectivity, stat_of, table_rows,
    ColumnDistribution, ColumnStats, Distribution, StatsModel,
};
use crate::optimizer::cost_model::{
    plan_cost, unit_costs, CostModel, OperatorCost, OperatorType, ONE,
};
use crate::optimizer::join_reorder::{
    every_join_is_planned_once, larger, qualifier, JoinOrderer, JoinProblem, PlannedJoin, SizeModel,
    TableSizes,
};
use crate::sql::parser::{
    equi_model, join_models, parsed, EquiMatch, EquiModel, JoinClause, JoinKind, JoinModel,
    SQLParser, SQLStatement, SelectModel, SelectStatement, StatementModel,
};
use crate::text::{copy_texts, same, strip_quotes, texts, trim, trimmed, without_quotes};

verus! {

/// The rows that a table is taken to have of which nothing is known.
pub const ASSUMED_TABLE_ROWS: usize = 1000;

/// The bits of one tenth, the share of pairs that a join is taken to keep.
pub const DEFAULT_JOIN_SELECTIVITY: u64 = 0x3fb9_9999_9999_999a;

/// The bits of one half, the share of rows that a filter is taken to keep.
pub const DEFAULT_FILTER_SELECTIVITY: u64 = 0x3fe0_0000_0000_0000;

/// A step of a plan. `rows` is how many rows it is expected to yield.
#[derive(Debug)]
pub enum LogicalPlanNode {
    /// Reads a table.
    Scan { table_id: u32, table_name: String, alias: Option<String>, rows: usize },
    /// Keeps the rows that satisfy a predicate; `split` is the predicate's three
    /// tokens where it is a single comparison.
    Filter { predicate: String, split: Option<(String, String, String)>, rows: usize },
    /// Joins a table.
    Join {
        right_table: String,
        right_alias: Option<String>,
        condition: Option<String>,
        equi_match: Option<EquiMatch>,
        left_rows: usize,
        right_rows: usize,
        kind: JoinKind,
    },
    /// Makes one row of each group.
    Aggregate { columns: Vec<String>, group_by: Vec<String>, having: Option<String>, rows: usize },
    /// Keeps some columns.
    Project { columns: Vec<String>, rows: usize },
    /// Sorts by columns; a key is a column's name and whether small values come
    /// first.
    Sort { keys: Vec<(String, bool)>, rows: usize },
    /// Drops repeated rows.
    Distinct { rows: usize },
    /// Skips the first rows and keeps some of the others.
    Limit { limit: usize, offset: usize, rows: usize },
}

/// The three tokens of a comparison.
pub type SplitModel = (Seq<char>, Seq<char>, Seq<char>);

/// A step of a plan as contracts speak of it.
pub enum NodeModel {
    Scan { table_id: u32, table_name: Seq<char>, alias: Option<Seq<char>>, rows: usize },
    Filter { predicate: Seq<char>, split: Option<SplitModel>, rows: usize },
    Join {
        right_table: Seq<char>,
        right_alias: Option<Seq<char>>,
        condition: Option<Seq<char>>,
        equi_match: Option<EquiModel>,
        left_rows: usize,
        right_rows: usize,
        kind: JoinKind,
    },
    Aggregate {
        columns: Seq<Seq<char>>,
        group_by: Seq<Seq<char>>,
        having: Option<Seq<char>>,
        rows: usize,
    },
    Project { columns: Seq<Seq<char>>, rows: usize },
    Sort { keys: Seq<SortKey>, rows: usize },
    Distinct { rows: usize },
    Limit { limit: usize, offset: usize, rows: usize },
}

/// The tokens of a comparison, where there are three, as their model.
pub open spec fn split_model(s: Option<(String, String, String)>) -> Option<SplitModel> {
    match s {
        Some(t) => Some((t.0@, t.1@, t.2@)),
        None => None,
    }
}

impl View for LogicalPlanNode {
    type V = NodeModel;

    open spec fn view(&self) -> NodeModel {
        match *self {
            LogicalPlanNode::Scan { table_id, table_name, alias, rows } => NodeModel::Scan {
                table_id,
                table_name: table_name@,
                alias: optional_text(alias),
                rows,
            },
            LogicalPlanNode::Filter { predicate, split, rows } => NodeModel::Filter {
                predicate: predicate@,
                split: split_model(split),
                rows,
            },
            LogicalPlanNode::Join {
                right_table,
                right_alias,
                condition,
                equi_match,
                left_rows,
                right_rows,
                kind,
            } => NodeModel::Join {
                right_table: right_table@,
                right_alias: optional_text(right_alias),
                condition: optional_text(condition),
                equi_match: equi_model(equi_match),
                left_rows,
                right_rows,
                kind,
            },
            LogicalPlanNode::Aggregate { columns, group_by, having, rows } => {
                NodeModel::Aggregate {
                    columns: texts(columns@),
                    group_by: texts(group_by@),
                    having: optional_text(having),
                    rows,
                }
            },
            LogicalPlanNode::Project { columns, rows } => NodeModel::Project {
                columns: texts(columns@),
                rows,
            },
            LogicalPlanNode::Sort { keys, rows } => NodeModel::Sort {
                keys: key_models(keys@),
                rows,
            },
            LogicalPlanNode::Distinct { rows } => NodeModel::Distinct { rows },
            LogicalPlanNode::Limit { limit, offset, rows } => NodeModel::Limit {
                limit,
                offset,
                rows,
            },
        }
    }
}

/// Some steps, each as its model.
pub open spec fn node_models(v: Seq<LogicalPlanNode>) -> Seq<NodeModel> {
    v.map_values(|n: LogicalPlanNode| n@)
}

/// A plan: its steps in order, and what it is expected to cost and to yield.
#[derive(Debug)]
pub struct PhysicalPlan {
    pub nodes: Vec<LogicalPlanNode>,
    pub estimated_cost: F64,
    pub estimated_rows: usize,
}

/// A plan as contracts speak of it.
pub struct PlanModel {
    pub nodes: Seq<NodeModel>,
    pub cost: u64,
    pub rows: usize,
}

impl View for PhysicalPlan {
    type V = PlanModel;

    open spec fn view(&self) -> PlanModel {
        PlanModel {
            nodes: node_models(self.nodes@),
            cost: self.estimated_cost.bits,
            rows: self.estimated_rows,
        }
    }
}

/// A plan or an error, as its model.
pub open spec fn plan_result(r: Result<PhysicalPlan, DatabaseError>) -> Result<PlanModel, Fault> {
    match r {
        Ok(p) => Ok(p@),
        Err(e) => Err(e@),
    }
}

// ---- the sizes of a query's tables ------------------------------------------------------

/// The name by which a query calls its first table.
pub open spec fn first_qualifier(q: SelectModel) -> Seq<char> {
    match q.from_alias {
        Some(a) => a,
        None => q.from,
    }
}

/// The table that is called `name` by the last of the first `n` joins that calls
/// one so.
pub open spec fn joined_table(joins: Seq<JoinModel>, name: Seq<char>, n: int) -> Option<Seq<char>>
    decreases n,
{
    if n <= 0 || n > joins.len() {
        None
    } else if qualifier(joins[n - 1]) == name {
        Some(joins[n - 1].table)
    } else {
        joined_table(joins, name, n - 1)
    }
}

/// The table that a query calls `name`.
pub open spec fn table_called(q: SelectModel, name: Seq<char>) -> Option<Seq<char>> {
    match joined_table(q.joins, name, q.joins.len() as int) {
        Some(t) => Some(t),
        None => if first_qualifier(q) == name {
            Some(q.from)
        } else {
            None
        },
    }
}

/// The rows of the table that a query calls `name`.
pub open spec fn rows_called(q: SelectModel, stats: StatsModel, name: Seq<char>) -> usize {
    match table_called(q, name) {
        Some(t) => match table_rows(stats, t, 0) {
            Some(n) => n,
            None => ASSUMED_TABLE_ROWS,
        },
        None => ASSUMED_TABLE_ROWS,
    }
}

/// The number of different values of a column, where it is known.
pub open spec fn distinct_called(
    q: SelectModel,
    stats: StatsModel,
    name: Seq<char>,
    column: Seq<char>,
) -> Option<usize> {
    match table_called(q, name) {
        Some(t) => match stat_of(stats, t, column) {
            Some(d) => Some(different_values(d)),
            None => None,
        },
        None => None,
    }
}

/// The sizes of the tables of a query.
pub open spec fn query_sizes(q: SelectModel, stats: StatsModel) -> SizeModel {
    SizeModel {
        rows: |name: Seq<char>| rows_called(q, stats, name),
        distinct: |name: Seq<char>, column: Seq<char>| distinct_called(q, stats, name, column),
    }
}

struct QuerySizes<'a> {
    select: &'a SelectStatement,
    stats: &'a ColumnStats,
}

impl<'a> QuerySizes<'a> {
    fn table_of(&self, name: &str) -> (r: Option<&'a String>)
        ensures
            match r {
                Some(t) => table_called(self.select@, name@) == Some(t@),
                None => table_called(self.select@, name@) is None,
            },
    {
        let ghost all = self.select@.joins;
        let mut n: usize = self.select.joins.len();
        while n > 0
            invariant
                n <= self.select.joins@.len(),
                all == self.select@.joins,
                all == join_models(self.select.joins@),
                joined_table(all, name@, all.len() as int) == joined_table(all, name@, n as int),
            decreases n,
        {
            let join = &self.select.joins[n - 1];
            assert(all[n - 1] == join@);
            let called: &String = match &join.alias {
                Some(a) => a,
                None => &join.table,
            };
            if same(called.as_str(), name) {
                return Some(&join.table);
            }
            n = n - 1;
        }
        let called: &String = match &self.select.from_alias {
            Some(a) => a,
            None => &self.select.from,
        };
        if same(called.as_str(), name) {
            Some(&self.select.from)
        } else {
            None
        }
    }
}

impl<'a> TableSizes for QuerySizes<'a> {
    closed spec fn steady(&self) -> bool {
        self.stats.wf()
    }

    closed spec fn sizes(&self) -> SizeModel {
        query_sizes(self.select@, self.stats@)
    }

    fn row_count(&self, name: &str) -> (r: usize) {
        match self.table_of(name) {
            Some(t) => match self.stats.row_count(t.as_str()) {
                Some(n) => n,
                None => ASSUMED_TABLE_ROWS,
            },
            None => ASSUMED_TABLE_ROWS,
        }
    }

    fn distinct_count(&self, name: &str, column: &str) -> (r: Option<usize>) {
        match self.table_of(name) {
            Some(t) => match self.stats.get(t.as_str(), column) {
                Some(d) => Some(d.distinct_count()),
                None => None,
            },
            None => None,
        }
    }
}

// ---- the steps of a query ---------------------------------------------------------------

/// How the order of a query's joins is chosen.
pub open spec fn join_problem(
    q: SelectModel,
    stats: StatsModel,
    costs: CostModel,
    fl: FloatModel,
) -> JoinProblem {
    JoinProblem {
        from: first_qualifier(q),
        from_rows: rows_called(q, stats, first_qualifier(q)),
        joins: q.joins,
        sizes: query_sizes(q, stats),
        selectivity: DEFAULT_JOIN_SELECTIVITY,
        costs,
        floats: fl,
    }
}

/// The steps of joins.
pub open spec fn join_nodes(joins: Seq<JoinModel>, planned: Seq<PlannedJoin>) -> Seq<NodeModel> {
    planned.map_values(
        |p: PlannedJoin|
            {
                let j = joins[p.join_index as int];
                NodeModel::Join {
                    right_table: j.table,
                    right_alias: j.alias,
                    condition: j.condition,
                    equi_match: j.equi,
                    left_rows: p.left_rows,
                    right_rows: p.right_rows,
                    kind: j.kind,
                }
            },
    )
}

/// The three tokens of a single comparison.
pub open spec fn comparison_split(predicate: Seq<char>) -> Option<SplitModel> {
    let t = tokens_of(predicate);
    if t.len() == 3 {
        Some((t[0], t[1], t[2]))
    } else {
        None
    }
}

/// The value that a literal is among those of a column.
pub open spec fn literal_value(raw: Seq<char>, d: Distribution, fl: FloatModel) -> Option<Datum> {
    match d {
        Distribution::Numeric { .. } => match (fl.reads)(trimmed(raw)) {
            Some(x) => Some(Datum::Float(x)),
            None => None,
        },
        Distribution::Categorical { .. } => Some(Datum::Text(without_quotes(trimmed(raw)))),
    }
}

/// The rows that a comparison keeps, by what is known of the column.
pub open spec fn known_estimate(
    q: SelectModel,
    stats: StatsModel,
    predicate: Seq<char>,
    rows: usize,
    fl: FloatModel,
) -> Option<usize> {
    match (q.joins.len() == 0, comparison_split(predicate)) {
        (true, Some(t)) => match stat_of(stats, q.from, t.0) {
            Some(d) => match literal_value(t.2, d, fl) {
                Some(v) => match (placeable(d, v, fl), selectivity(d, t.1, v, fl)) {
                    (true, Some(s)) => Some(scaled_rows(rows, s, fl)),
                    _ => None,
                },
                None => None,
            },
            None => None,
        },
        _ => None,
    }
}

/// The rows that a query's filter keeps.
pub open spec fn filtered_rows(
    q: SelectModel,
    stats: StatsModel,
    rows: usize,
    fl: FloatModel,
) -> usize {
    match q.where_clause {
        Some(p) => match known_estimate(q, stats, p, rows, fl) {
            Some(n) => n,
            None => scaled_rows(rows, DEFAULT_FILTER_SELECTIVITY, fl),
        },
        None => rows,
    }
}

/// The step of a query's filter.
pub open spec fn filter_nodes(q: SelectModel, rows: usize) -> Seq<NodeModel> {
    match q.where_clause {
        Some(p) => seq![NodeModel::Filter { predicate: p, split: comparison_split(p), rows }],
        None => Seq::empty(),
    }
}

/// Whether a column is an aggregate call or one of those by which rows are
/// grouped.
pub open spec fn is_grouped_column(q: SelectModel, column: Seq<char>) -> bool {
    aggregate_call(column) is Some || text_from(q.group_by, column, 0) is Some
}

/// Whether a query makes one row of each group: its columns are all aggregate
/// calls or columns by which rows are grouped.
pub open spec fn is_aggregate(q: SelectModel) -> bool {
    &&& q.columns.len() > 0
    &&& forall|i: int|
        0 <= i < q.columns.len() ==> is_grouped_column(q, #[trigger] q.columns[i])
}

/// The rows that grouping is expected to yield: one without a grouping, else the
/// root of the number of rows.
pub open spec fn grouped_rows(q: SelectModel, rows: usize, fl: FloatModel) -> usize {
    if q.group_by.len() == 0 {
        1
    } else {
        let n = (fl.gives)(
            FloatOp::ToCount,
            (fl.gives)(
                FloatOp::Ceiling,
                (fl.gives)(
                    FloatOp::SquareRoot,
                    (fl.gives)(FloatOp::OfCount, rows as u64, 0),
                    0,
                ),
                0,
            ),
            0,
        ) as usize;
        if n < 1 {
            1
        } else {
            n
        }
    }
}

/// The step of a query's grouping.
pub open spec fn aggregate_nodes(q: SelectModel, rows: usize) -> Seq<NodeModel> {
    if is_aggregate(q) {
        seq![
            NodeModel::Aggregate {
                columns: q.columns,
                group_by: q.group_by,
                having: q.having,
                rows,
            },
        ]
    } else {
        Seq::empty()
    }
}

/// The step of a query's order.
pub open spec fn sort_nodes(q: SelectModel, rows: usize) -> Seq<NodeModel> {
    match q.order_by {
        Some(text) => if order_by_keys(text).len() == 0 {
            Seq::empty()
        } else {
            seq![NodeModel::Sort { keys: order_by_keys(text), rows }]
        },
        None => Seq::empty(),
    }
}

/// Whether a query asks for all columns.
pub open spec fn asks_for_all(q: SelectModel) -> bool {
    q.columns.len() == 1 && q.columns[0] == "*"@
}

/// The step that keeps a query's columns.
pub open spec fn project_nodes(q: SelectModel, rows: usize) -> Seq<NodeModel> {
    if is_aggregate(q) || asks_for_all(q) {
        Seq::empty()
    } else {
        seq![NodeModel::Project { columns: q.columns, rows }]
    }
}

/// The step that drops repeated rows.
pub open spec fn distinct_nodes(q: SelectModel, rows: usize) -> Seq<NodeModel> {
    if q.distinct {
        seq![NodeModel::Distinct { rows }]
    } else {
        Seq::empty()
    }
}

/// Whether a query skips or cuts off rows.
pub open spec fn is_cut(q: SelectModel) -> bool {
    q.limit is Some || q.offset is Some
}

/// The most rows that a query keeps.
pub open spec fn limit_of(q: SelectModel) -> usize {
    match q.limit {
        Some(n) => n,
        None => usize::MAX,
    }
}

/// The rows that a query skips.
pub open spec fn offset_of(q: SelectModel) -> usize {
    match q.offset {
        Some(n) => n,
        None => 0,
    }
}

/// The rows that are left after skipping and cutting.
pub open spec fn cut_rows(q: SelectModel, rows: usize) -> usize {
    if !is_cut(q) {
        rows
    } else {
        let left = if rows > offset_of(q) { (rows - offset_of(q)) as usize } else { 0 };
        if left > limit_of(q) {
            limit_of(q)
        } else {
            left
        }
    }
}

/// The step that skips and cuts.
pub open spec fn limit_nodes(q: SelectModel, rows: usize) -> Seq<NodeModel> {
    if is_cut(q) {
        seq![NodeModel::Limit { limit: limit_of(q), offset: offset_of(q), rows }]
    } else {
        Seq::empty()
    }
}

/// The rows that a step yields, as its cost counts them.
pub open spec fn node_rows(n: NodeModel) -> usize {
    match n {
        NodeModel::Scan { rows, .. } => rows,
        NodeModel::Filter { rows, .. } => rows,
        NodeModel::Join { left_rows, right_rows, .. } => larger(left_rows, right_rows),
        NodeModel::Aggregate { rows, .. } => rows,
        NodeModel::Project { rows, .. } => rows,
        NodeModel::Sort { rows, .. } => rows,
        NodeModel::Distinct { rows } => rows,
        NodeModel::Limit { rows, .. } => rows,
    }
}

/// The operator that a step costs as much as.
pub open spec fn node_operator(n: NodeModel) -> OperatorType {
    match n {
        NodeModel::Scan { .. } => OperatorType::TableScan,
        NodeModel::Filter { .. } => OperatorType::Filter,
        NodeModel::Join { .. } => OperatorType::HashJoin,
        NodeModel::Aggregate { .. } => OperatorType::Aggregate,
        NodeModel::Project { .. } => OperatorType::Filter,
        NodeModel::Sort { .. } => OperatorType::Sort,
        NodeModel::Distinct { .. } => OperatorType::Aggregate,
        NodeModel::Limit { .. } => OperatorType::Limit,
    }
}

/// The operators of a plan: each reads what the one before it yields, and what it
/// yields itself where that is nothing.
pub open spec fn operators_of(nodes: Seq<NodeModel>) -> Seq<OperatorCost> {
    Seq::new(
        nodes.len(),
        |i: int|
            OperatorCost {
                operator: node_operator(nodes[i]),
                input_rows: if i > 0 && node_rows(nodes[i - 1]) != 0 {
                    node_rows(nodes[i - 1])
                } else {
                    node_rows(nodes[i])
                },
                output_rows: node_rows(nodes[i]),
                selectivity: F64 { bits: ONE },
            },
    )
}

/// The rows of a query before its columns are chosen.
pub open spec fn source_rows(
    q: SelectModel,
    stats: StatsModel,
    join_costs: CostModel,
    fl: FloatModel,
) -> usize {
    let p = join_problem(q, stats, join_costs, fl);
    filtered_rows(q, stats, p.rows_after(p.chosen(), p.chosen().len() as int), fl)
}

/// The steps that read, join and filter.
pub open spec fn source_nodes(
    q: SelectModel,
    stats: StatsModel,
    join_costs: CostModel,
    fl: FloatModel,
) -> Seq<NodeModel> {
    let p = join_problem(q, stats, join_costs, fl);
    seq![
        NodeModel::Scan {
            table_id: 0,
            table_name: q.from,
            alias: q.from_alias,
            rows: p.from_rows,
        },
    ] + join_nodes(q.joins, p.plan(p.chosen())) + filter_nodes(
        q,
        source_rows(q, stats, join_costs, fl),
    )
}

/// The rows of a query before it is cut.
pub open spec fn shaped_rows(q: SelectModel, rows: usize, fl: FloatModel) -> usize {
    if is_aggregate(q) {
        grouped_rows(q, rows, fl)
    } else {
        rows
    }
}

/// The steps that group, sort, choose columns, drop repeated rows and cut.
pub open spec fn shape_nodes(q: SelectModel, rows: usize) -> Seq<NodeModel> {
    aggregate_nodes(q, rows) + sort_nodes(q, rows) + project_nodes(q, rows) + distinct_nodes(
        q,
        rows,
    ) + limit_nodes(q, cut_rows(q, rows))
}

/// The plan of a query.
pub open spec fn planned(
    q: SelectModel,
    stats: StatsModel,
    costs: CostModel,
    join_costs: CostModel,
    fl: FloatModel,
) -> Result<PlanModel, Fault> {
    if !is_aggregate(q) && q.having is Some {
        Err(Fault::Execution("HAVING requires GROUP BY or an all-aggregate SELECT list"@))
    } else {
        let rows = shaped_rows(q, source_rows(q, stats, join_costs, fl), fl);
        let nodes = source_nodes(q, stats, join_costs, fl) + shape_nodes(q, rows);
        Ok(
            PlanModel {
                nodes,
                cost: plan_cost(costs, operators_of(nodes), nodes.len() as int, fl),
                rows: cut_rows(q, rows),
            },
        )
    }
}

/// The plan of what is no query: it reads nothing.
pub open spec fn empty_plan() -> PlanModel {
    PlanModel {
        nodes: seq![
            NodeModel::Scan { table_id: 0, table_name: Seq::empty(), alias: None, rows: 0 },
        ],
        cost: 0,
        rows: 0,
    }
}

// ---- the planner ------------------------------------------------------------------------

/// A copy of a text that may be missing.
pub fn copy_optional(t: &Option<String>) -> (r: Option<String>)
    ensures
        optional_text(r) == optional_text(*t),
{
    match t {
        Some(s) => Some(s.clone()),
        None => None,
    }
}

/// A copy of what a join matches.
pub fn copy_equi(e: &Option<EquiMatch>) -> (r: Option<EquiMatch>)
    ensures
        equi_model(r) == equi_model(*e),
{
    match e {
        Some(EquiMatch::Using(v)) => Some(EquiMatch::Using(copy_texts(v))),
        Some(EquiMatch::Natural) => Some(EquiMatch::Natural),
        None => None,
    }
}

fn push_node(nodes: &mut Vec<LogicalPlanNode>, node: LogicalPlanNode)
    ensures
        final(nodes)@ == old(nodes)@.push(node),
        node_models(final(nodes)@) == node_models(old(nodes)@) + seq![node@],
{
    let ghost before = node_models(nodes@);
    nodes.push(node);
    assert(node_models(nodes@) == before + seq![node@]);
}

fn literal_for_distribution<F: Floats>(raw: &str, dist: &ColumnDistribution, floats: &F) -> (r:
    Option<Value>)
    requires
        floats.sound(),
    ensures
        match r {
            Some(v) => literal_value(raw@, dist@, floats.model()) == Some(v@),
            None => literal_value(raw@, dist@, floats.model()) is None,
        },
{
    let s = trim(raw);
    match dist {
        ColumnDistribution::Numeric { .. } => match floats.read_float(s.as_str()) {
            Some(x) => Some(Value::Float(x)),
            None => None,
        },
        ColumnDistribution::Categorical { .. } => Some(Value::String(strip_quotes(s.as_str()))),
    }
}

fn is_placeable(dist: &ColumnDistribution, value: &Value, Ghost(fl): Ghost<FloatModel>) -> (r: bool)
    requires
        !(value@ is Integer),
    ensures
        r == placeable(dist@, value@, fl),
{
    match (dist, value) {
        (ColumnDistribution::Numeric { total_rows, .. }, Value::Float(x)) => {
            *total_rows == 0 || !x.is_nan()
        },
        _ => true,
    }
}

proof fn lemma_steps_in_a_row(
    r: Seq<NodeModel>,
    a: Seq<NodeModel>,
    b: Seq<NodeModel>,
    c: Seq<NodeModel>,
    d: Seq<NodeModel>,
    e: Seq<NodeModel>,
)
    ensures
        r + a + b + c + d + e == r + (a + b + c + d + e),
{
    assert(r + a + b + c + d + e =~= r + (a + b + c + d + e));
}

/// Plans queries.
#[derive(Clone, Copy, Debug)]
pub struct QueryPlanner {
    pub cost_model: CostModel,
    pub join_orderer: JoinOrderer,
}

impl QueryPlanner {
    /// A planner in whose cost models every row costs one.
    pub fn new() -> (r: Self)
        ensures
            r.cost_model == unit_costs(),
            r.join_orderer.cost_model == unit_costs(),
    {
        QueryPlanner { cost_model: CostModel::new(), join_orderer: JoinOrderer::new() }
    }

    /// The plan of a query text, with nothing known of its tables. What is no
    /// query has the plan that reads nothing.
    pub fn plan<F: Floats>(&self, query: &str, floats: &F) -> (r: Result<
        PhysicalPlan,
        DatabaseError,
    >)
        requires
            floats.sound(),
        ensures
            plan_result(r) == match parsed(query@) {
                Ok(StatementModel::Select(q)) => planned(
                    q,
                    StatsModel::empty(),
                    self.cost_model,
                    self.join_orderer.cost_model,
                    floats.model(),
                ),
                _ => Ok(empty_plan()),
            },
    {
        match SQLParser::parse(query) {
            Ok(SQLStatement::Select(select)) => {
                let stats = ColumnStats::new();
                self.plan_select(&select, &stats, floats)
            },
            _ => {
                let mut nodes: Vec<LogicalPlanNode> = Vec::new();
                nodes.push(
                    LogicalPlanNode::Scan {
                        table_id: 0,
                        table_name: String::new(),
                        alias: None,
                        rows: 0,
                    },
                );
                assert(node_models(nodes@) == empty_plan().nodes);
                Ok(
                    PhysicalPlan {
                        nodes,
                        estimated_cost: F64 { bits: 0 },
                        estimated_rows: 0,
                    },
                )
            },
        }
    }

    fn aggregate_query(select: &SelectStatement) -> (r: bool)
        ensures
            r == is_aggregate(select@),
    {
        let ghost q = select@;
        if select.columns.len() == 0 {
            return false;
        }
        let mut i: usize = 0;
        while i < select.columns.len()
            invariant
                i <= select.columns@.len(),
                q == select@,
                select.columns@.len() == q.columns.len() > 0,
                forall|k: int| 0 <= k < i ==> is_grouped_column(q, #[trigger] q.columns[k]),
            decreases select.columns@.len() - i,
        {
            let c = &select.columns[i];
            assert(q.columns[i as int] == c@);
            if parse_aggregate(c.as_str()).is_none()
                && find_text(&select.group_by, c.as_str()).is_none() {
                assert(!is_grouped_column(q, q.columns[i as int]));
                return false;
            }
            i = i + 1;
        }
        true
    }

    fn estimate_filter<F: Floats>(
        select: &SelectStatement,
        stats: &ColumnStats,
        split: &Option<(String, String, String)>,
        rows: usize,
        floats: &F,
        Ghost(predicate): Ghost<Seq<char>>,
    ) -> (r: usize)
        requires
            floats.sound(),
            stats.wf(),
            split_model(*split) == comparison_split(predicate),
            select@.where_clause == Some(predicate),
        ensures
            r == filtered_rows(select@, stats@, rows, floats.model()),
    {
        if select.joins.len() == 0 {
            if let Some(t) = split {
                if let Some(dist) = stats.get(select.from.as_str(), t.0.as_str()) {
                    if let Some(value) = literal_for_distribution(t.2.as_str(), dist, floats) {
                        if is_placeable(dist, &value, Ghost(floats.model())) {
                            if let Some(n) = dist.estimate_row_count(
                                t.1.as_str(),
                                &value,
                                rows,
                                floats,
                            ) {
                                return n;
                            }
                        }
                    }
                }
            }
        }
        scale_rows(rows, F64 { bits: DEFAULT_FILTER_SELECTIVITY }, floats)
    }

    fn group_estimate<F: Floats>(select: &SelectStatement, rows: usize, floats: &F) -> (r: usize)
        requires
            floats.sound(),
        ensures
            r == grouped_rows(select@, rows, floats.model()),
    {
        if select.group_by.len() == 0 {
            return 1;
        }
        let n = floats.apply(FloatOp::OfCount, rows as u64, 0);
        let root = floats.apply(FloatOp::SquareRoot, n, 0);
        let up = floats.apply(FloatOp::Ceiling, root, 0);
        let count: usize = floats.apply(FloatOp::ToCount, up, 0) as usize;
        if count < 1 {
            1
        } else {
            count
        }
    }

    /// The steps that read, join and filter, and the rows that they yield.
    fn plan_source<F: Floats>(&self, select: &SelectStatement, stats: &ColumnStats, floats: &F) -> (r:
        (Vec<LogicalPlanNode>, usize))
        requires
            floats.sound(),
            stats.wf(),
        ensures
            node_models(r.0@) == source_nodes(
                select@,
                stats@,
                self.join_orderer.cost_model,
                floats.model(),
            ),
            r.1 == source_rows(
                select@,
                stats@,
                self.join_orderer.cost_model,
                floats.model(),
            ),
    {
        let ghost q = select@;
        let ghost fl = floats.model();
        let ghost p = join_problem(q, stats@, self.join_orderer.cost_model, fl);
        let sizes = QuerySizes { select, stats };
        let from: &String = match &select.from_alias {
            Some(a) => a,
            None => &select.from,
        };
        let base: usize = sizes.row_count(from.as_str());
        let mut rows: usize = base;
        let mut nodes: Vec<LogicalPlanNode> = Vec::new();
        push_node(
            &mut nodes,
            LogicalPlanNode::Scan {
                table_id: 0,
                table_name: select.from.clone(),
                alias: copy_optional(&select.from_alias),
                rows,
            },
        );
        let ghost scan = node_models(nodes@);
        let planned_joins = self.join_orderer.find_optimal_order(
            from.as_str(),
            rows,
            select.joins.as_slice(),
            &sizes,
            F64 { bits: DEFAULT_JOIN_SELECTIVITY },
            floats,
        );
        let ghost order = p.chosen();
        let ghost joined = join_nodes(q.joins, p.plan(order));
        proof {
            assert(p.joins.len() == select.joins.len());
            every_join_is_planned_once(p);
            assert(planned_joins@ == p.plan(order));
            assert(joined.take(0) == Seq::<NodeModel>::empty());
            assert(scan + joined.take(0) == scan);
        }
        let mut i: usize = 0;
        while i < planned_joins.len()
            invariant
                i <= planned_joins@.len(),
                q == select@,
                q.joins == join_models(select.joins@),
                p.joins == q.joins,
                p.from_rows == base,
                order.len() == q.joins.len(),
                p.distinct_joins(order),
                planned_joins@ == p.plan(order),
                joined == join_nodes(q.joins, p.plan(order)),
                node_models(nodes@) == scan + joined.take(i as int),
                rows == p.rows_after(order, i as int),
            decreases planned_joins@.len() - i,
        {
            let planned = planned_joins[i];
            assert(planned == p.plan(order)[i as int]);
            assert(order[i as int] < p.joins.len());
            let join: &JoinClause = &select.joins[planned.join_index];
            assert(q.joins[planned.join_index as int] == join@);
            let ghost before = node_models(nodes@);
            push_node(
                &mut nodes,
                LogicalPlanNode::Join {
                    right_table: join.table.clone(),
                    right_alias: copy_optional(&join.alias),
                    condition: copy_optional(&join.condition),
                    equi_match: copy_equi(&join.equi_match),
                    left_rows: planned.left_rows,
                    right_rows: planned.right_rows,
                    kind: join.kind,
                },
            );
            assert(node_models(nodes@) == before + seq![joined[i as int]]);
            assert(joined.take(i + 1) == joined.take(i as int).push(joined[i as int]));
            assert(before + seq![joined[i as int]] == scan + joined.take(i + 1));
            rows = planned.output_rows;
            i = i + 1;
        }
        assert(joined.take(i as int) == joined);
        let ghost read = node_models(nodes@);
        if let Some(predicate) = &select.where_clause {
            let split = split_comparison(predicate.as_str());
            assert(split_model(split) == comparison_split(predicate@));
            rows = Self::estimate_filter(select, stats, &split, rows, floats, Ghost(predicate@));
            push_node(
                &mut nodes,
                LogicalPlanNode::Filter { predicate: predicate.clone(), split, rows },
            );
        } else {
            assert(read + Seq::<NodeModel>::empty() == read);
        }
        (nodes, rows)
    }

    fn push_aggregate(
        select: &SelectStatement,
        is_aggregate_query: bool,
        nodes: &mut Vec<LogicalPlanNode>,
        rows: usize,
    )
        requires
            is_aggregate_query == is_aggregate(select@),
        ensures
            node_models(final(nodes)@) == node_models(old(nodes)@) + aggregate_nodes(
                select@,
                rows,
            ),
    {
        if is_aggregate_query {
            push_node(
                nodes,
                LogicalPlanNode::Aggregate {
                    columns: copy_texts(&select.columns),
                    group_by: copy_texts(&select.group_by),
                    having: copy_optional(&select.having),
                    rows,
                },
            );
        }
    }

    fn push_sort(select: &SelectStatement, nodes: &mut Vec<LogicalPlanNode>, rows: usize)
        ensures
            node_models(final(nodes)@) == node_models(old(nodes)@) + sort_nodes(select@, rows),
    {
        if let Some(order_by) = &select.order_by {
            let keys = parse_order_by(order_by.as_str());
            if keys.len() > 0 {
                push_node(nodes, LogicalPlanNode::Sort { keys, rows });
            }
        }
    }

    fn push_project(
        select: &SelectStatement,
        is_aggregate_query: bool,
        nodes: &mut Vec<LogicalPlanNode>,
        rows: usize,
    )
        requires
            is_aggregate_query == is_aggregate(select@),
        ensures
            node_models(final(nodes)@) == node_models(old(nodes)@) + project_nodes(select@, rows),
    {
        let all = select.columns.len() == 1 && same(select.columns[0].as_str(), "*");
        assert(all == asks_for_all(select@));
        if !is_aggregate_query && !all {
            push_node(
                nodes,
                LogicalPlanNode::Project { columns: copy_texts(&select.columns), rows },
            );
        }
    }

    fn push_distinct(select: &SelectStatement, nodes: &mut Vec<LogicalPlanNode>, rows: usize)
        ensures
            node_models(final(nodes)@) == node_models(old(nodes)@) + distinct_nodes(
                select@,
                rows,
            ),
    {
        if select.distinct {
            push_node(nodes, LogicalPlanNode::Distinct { rows });
        }
    }

    fn push_limit(select: &SelectStatement, nodes: &mut Vec<LogicalPlanNode>, rows: usize) -> (r:
        usize)
        ensures
            r == cut_rows(select@, rows),
            node_models(final(nodes)@) == node_models(old(nodes)@) + limit_nodes(select@, r),
    {
        if select.limit.is_none() && select.offset.is_none() {
            return rows;
        }
        let limit: usize = match select.limit {
            Some(n) => n,
            None => usize::MAX,
        };
        let offset: usize = match select.offset {
            Some(n) => n,
            None => 0,
        };
        let mut left: usize = if rows > offset { rows - offset } else { 0 };
        if left > limit {
            left = limit;
        }
        push_node(nodes, LogicalPlanNode::Limit { limit, offset, rows: left });
        left
    }

    /// Adds the steps that group, sort, choose columns, drop repeated rows and cut,
    /// and gives the rows that are left.
    fn plan_shape(
        select: &SelectStatement,
        is_aggregate_query: bool,
        nodes: &mut Vec<LogicalPlanNode>,
        rows: usize,
    ) -> (r: usize)
        requires
            is_aggregate_query == is_aggregate(select@),
        ensures
            node_models(final(nodes)@) == node_models(old(nodes)@) + shape_nodes(select@, rows),
            r == cut_rows(select@, rows),
    {
        let ghost read = node_models(nodes@);
        Self::push_aggregate(select, is_aggregate_query, nodes, rows);
        Self::push_sort(select, nodes, rows);
        Self::push_project(select, is_aggregate_query, nodes, rows);
        Self::push_distinct(select, nodes, rows);
        let left: usize = Self::push_limit(select, nodes, rows);
        proof {
            lemma_steps_in_a_row(
                read,
                aggregate_nodes(select@, rows),
                sort_nodes(select@, rows),
                project_nodes(select@, rows),
                distinct_nodes(select@, rows),
                limit_nodes(select@, left),
            );
        }
        left
    }

    /// The plan of a query, by what is known of its tables.
    pub fn plan_select<F: Floats>(
        &self,
        select: &SelectStatement,
        stats: &ColumnStats,
        floats: &F,
    ) -> (r: Result<PhysicalPlan, DatabaseError>)
        requires
            floats.sound(),
            stats.wf(),
        ensures
            plan_result(r) == planned(
                select@,
                stats@,
                self.cost_model,
                self.join_orderer.cost_model,
                floats.model(),
            ),
    {
        let ghost q = select@;
        let is_aggregate_query = Self::aggregate_query(select);
        if !is_aggregate_query && select.having.is_some() {
            return Err(
                DatabaseError::ExecutionError(
                    "HAVING requires GROUP BY or an all-aggregate SELECT list".to_owned(),
                ),
            );
        }
        let (mut nodes, source) = self.plan_source(select, stats, floats);
        let uncut: usize = if is_aggregate_query {
            Self::group_estimate(select, source, floats)
        } else {
            source
        };
        let rows: usize = Self::plan_shape(select, is_aggregate_query, &mut nodes, uncut);
        let operators = Self::to_operator_costs(&nodes);
        let estimated_cost = self.cost_model.estimate_total_cost(operators.as_slice(), floats);
        Ok(PhysicalPlan { nodes, estimated_cost, estimated_rows: rows })
    }

    fn to_operator_costs(nodes: &Vec<LogicalPlanNode>) -> (r: Vec<OperatorCost>)
        ensures
            r@ == operators_of(node_models(nodes@)),
    {
        let ghost all = node_models(nodes@);
        let mut out: Vec<OperatorCost> = Vec::new();
        let mut input_rows: usize = 0;
        let mut i: usize = 0;
        while i < nodes.len()
            invariant
                i <= nodes@.len(),
                all == node_models(nodes@),
                out@.len() == i,
                i == 0 ==> input_rows == 0,
                i > 0 ==> input_rows == node_rows(all[i - 1]),
                forall|k: int| 0 <= k < i ==> #[trigger] out@[k] == operators_of(all)[k],
            decreases nodes@.len() - i,
        {
            assert(all[i as int] == nodes@[i as int]@);
            let (operator, output_rows) = match &nodes[i] {
                LogicalPlanNode::Scan { rows, .. } => (OperatorType::TableScan, *rows),
                LogicalPlanNode::Filter { rows, .. } => (OperatorType::Filter, *rows),
                LogicalPlanNode::Join { left_rows, right_rows, .. } => (
                    OperatorType::HashJoin,
                    if *left_rows < *right_rows {
                        *right_rows
                    } else {
                        *left_rows
                    },
                ),
                LogicalPlanNode::Aggregate { rows, .. } => (OperatorType::Aggregate, *rows),
                LogicalPlanNode::Project { rows, .. } => (OperatorType::Filter, *rows),
                LogicalPlanNode::Sort { rows, .. } => (OperatorType::Sort, *rows),
                LogicalPlanNode::Distinct { rows } => (OperatorType::Aggregate, *rows),
                LogicalPlanNode::Limit { rows, .. } => (OperatorType::Limit, *rows),
            };
            out.push(
                OperatorCost::new(
                    operator,
                    if input_rows == 0 {
                        output_rows
                    } else {
                        input_rows
                    },
                    output_rows,
                    F64 { bits: ONE },
                ),
            );
            input_rows = output_rows;
            i = i + 1;
        }
        assert(out@ == operators_of(all));
        out
    }
}

impl Default for QueryPlanner {
    fn default() -> (r: Self)
        ensures
            r.cost_model == unit_costs(),
            r.join_orderer.cost_model == unit_costs(),
    {
        QueryPlanner::new()
    }
}

} // verus!
