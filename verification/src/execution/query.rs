//! Running plans.

use vstd::prelude::*;
use crate::error::{DatabaseError, Fault};
use crate::execution::aggregate::optional_text;
use crate::execution::executor::{Db, QueryExecutor};
use crate::execution::grouping::{aggregated_relation, apply_aggregate};
use crate::execution::join_schema::{apply_join, join_text, joined};
use crate::execution::operators::{rows, Datum, Tuple};
use crate::execution::relation::{
    apply_distinct, apply_filter, apply_limit, apply_project, apply_sort, execution_fault, filtered,
    first_occurrences, ordered, projected, relation_result, window, Relation, RelationModel,
};
use crate::execution::row_codec::literals::{shown, value_to_string};
use crate::execution::row_codec::tokens::tokens_of;
use crate::execution::scan::{index_scan, scan_result, table_scan};
use crate::float::{FloatModel, Floats};
use crate::optimizer::planner::{node_models, LogicalPlanNode, NodeModel, PhysicalPlan, SplitModel};
use crate::sql::parser::text_rows;
use crate::text::{join2, texts};

verus! {

/// What has been read so far: a relation, and the name that its columns are still
/// to be qualified by.
pub struct Flow {
    pub relation: Option<RelationModel>,
    pub qualifier: Option<Seq<char>>,
}

/// The name of an alias, or of the table itself.
pub open spec fn called(alias: Option<Seq<char>>, table: Seq<char>) -> Seq<char> {
    match alias {
        Some(a) => a,
        None => table,
    }
}

/// A table narrowed by a filter through one of its indexes, where one serves.
pub open spec fn shortcut(
    db: Db,
    table: Seq<char>,
    predicate: Seq<char>,
    split: Option<SplitModel>,
    fl: FloatModel,
) -> Result<Option<RelationModel>, Fault> {
    match split {
        Some(t) => index_scan(db, table, t.0, t.1, t.2, fl),
        None => {
            let t = tokens_of(predicate);
            if t.len() == 3 {
                index_scan(db, table, t[0], t[1], t[2], fl)
            } else {
                Ok(None)
            }
        },
    }
}

/// What a step makes of a relation. A table is not read here.
pub open spec fn stepped(
    db: Db,
    node: NodeModel,
    r: RelationModel,
    qualifier: Option<Seq<char>>,
    fl: FloatModel,
) -> Result<RelationModel, Fault> {
    match node {
        NodeModel::Scan { .. } => Ok(r),
        NodeModel::Filter { predicate, .. } => filtered(r, predicate, fl),
        NodeModel::Join { right_table, right_alias, condition, equi_match, kind, .. } => {
            match table_scan(db, right_table) {
                Err(f) => Err(f),
                Ok(right) => joined(
                    r,
                    qualifier,
                    right,
                    called(right_alias, right_table),
                    right_table,
                    join_text(condition, equi_match),
                    kind,
                    fl,
                ),
            }
        },
        NodeModel::Aggregate { columns, group_by, having, .. } => aggregated_relation(
            r,
            columns,
            group_by,
            having,
            fl,
        ),
        NodeModel::Project { columns, .. } => projected(r, columns),
        NodeModel::Sort { keys, .. } => ordered(r, keys, fl),
        NodeModel::Distinct { .. } => Ok(
            RelationModel { rows: first_occurrences(r.rows, r.rows.len() as int), ..r },
        ),
        NodeModel::Limit { limit, offset, .. } => Ok(
            RelationModel { rows: window(r.rows, offset as int, limit as int), ..r },
        ),
    }
}

/// The fault of a step before which nothing has been read.
pub open spec fn no_input(node: NodeModel) -> Fault {
    execution_fault(
        (match node {
            NodeModel::Scan { .. } => "Scan"@,
            NodeModel::Filter { .. } => "Filter"@,
            NodeModel::Join { .. } => "JOIN"@,
            NodeModel::Aggregate { .. } => "Aggregate"@,
            NodeModel::Project { .. } => "Project"@,
            NodeModel::Sort { .. } => "Sort"@,
            NodeModel::Distinct { .. } => "Distinct"@,
            NodeModel::Limit { .. } => "Limit"@,
        }) + " with no input"@,
    )
}

/// The name that columns are still to be qualified by after a step: a join has
/// qualified them.
pub open spec fn qualifier_after(node: NodeModel, qualifier: Option<Seq<char>>) -> Option<Seq<char>> {
    if node is Join {
        None
    } else {
        qualifier
    }
}

/// What the steps from the `i`-th on make of what has been read so far. A table that
/// is filtered at once is read through an index where one serves.
pub open spec fn ran(db: Db, nodes: Seq<NodeModel>, i: int, flow: Flow, fl: FloatModel) -> Result<
    Flow,
    Fault,
>
    decreases nodes.len() - i,
{
    if i < 0 || i >= nodes.len() {
        Ok(flow)
    } else {
        match nodes[i] {
            NodeModel::Scan { table_name, alias, .. } => {
                let qualifier = Some(called(alias, table_name));
                let narrowed = if i + 1 < nodes.len() {
                    match nodes[i + 1] {
                        NodeModel::Filter { predicate, split, .. } => shortcut(
                            db,
                            table_name,
                            predicate,
                            split,
                            fl,
                        ),
                        _ => Ok(None),
                    }
                } else {
                    Ok(None)
                };
                match narrowed {
                    Err(f) => Err(f),
                    Ok(Some(r)) => ran(
                        db,
                        nodes,
                        i + 2,
                        Flow { relation: Some(r), qualifier },
                        fl,
                    ),
                    Ok(None) => match table_scan(db, table_name) {
                        Err(f) => Err(f),
                        Ok(r) => ran(db, nodes, i + 1, Flow { relation: Some(r), qualifier }, fl),
                    },
                }
            },
            node => match flow.relation {
                None => Err(no_input(node)),
                Some(r) => match stepped(db, node, r, flow.qualifier, fl) {
                    Err(f) => Err(f),
                    Ok(next) => ran(
                        db,
                        nodes,
                        i + 1,
                        Flow {
                            relation: Some(next),
                            qualifier: qualifier_after(node, flow.qualifier),
                        },
                        fl,
                    ),
                },
            },
        }
    }
}

/// A row as its texts.
pub open spec fn shown_row(row: Seq<Datum>, fl: FloatModel) -> Seq<Seq<char>> {
    row.map_values(|d: Datum| shown(d, fl))
}

/// Rows as their texts.
pub open spec fn shown_rows(input: Seq<Seq<Datum>>, fl: FloatModel) -> Seq<Seq<Seq<char>>> {
    input.map_values(|row: Seq<Datum>| shown_row(row, fl))
}

/// What a plan answers: the texts of its last relation.
pub open spec fn answered(db: Db, nodes: Seq<NodeModel>, fl: FloatModel) -> Result<
    Seq<Seq<Seq<char>>>,
    Fault,
> {
    match ran(db, nodes, 0, Flow { relation: None, qualifier: None }, fl) {
        Err(f) => Err(f),
        Ok(flow) => match flow.relation {
            Some(r) => Ok(shown_rows(r.rows, fl)),
            None => Ok(Seq::empty()),
        },
    }
}

/// An answer or an error, as its model.
pub open spec fn answer_result(r: Result<Vec<Vec<String>>, DatabaseError>) -> Result<
    Seq<Seq<Seq<char>>>,
    Fault,
> {
    match r {
        Ok(v) => Ok(text_rows(v@)),
        Err(e) => Err(e@),
    }
}

fn show_row<F: Floats>(t: &Tuple, floats: &F) -> (r: Vec<String>)
    requires
        floats.sound(),
    ensures
        texts(r@) == shown_row(t@, floats.model()),
{
    let ghost whole = shown_row(t@, floats.model());
    let mut out: Vec<String> = Vec::new();
    let mut i: usize = 0;
    while i < t.values.len()
        invariant
            i <= t.values@.len(),
            floats.sound(),
            whole == shown_row(t@, floats.model()),
            out@.len() == i,
            forall|k: int| 0 <= k < i ==> (#[trigger] out@[k])@ == whole[k],
        decreases t.values@.len() - i,
    {
        let s = value_to_string(&t.values[i], floats);
        assert(t@[i as int] == t.values@[i as int]@);
        out.push(s);
        i = i + 1;
    }
    assert(texts(out@) =~= whole);
    out
}

fn show_rows<F: Floats>(tuples: &Vec<Tuple>, floats: &F) -> (r: Vec<Vec<String>>)
    requires
        floats.sound(),
    ensures
        text_rows(r@) == shown_rows(rows(tuples@), floats.model()),
{
    let ghost whole = shown_rows(rows(tuples@), floats.model());
    let mut out: Vec<Vec<String>> = Vec::new();
    let mut i: usize = 0;
    while i < tuples.len()
        invariant
            i <= tuples@.len(),
            floats.sound(),
            whole == shown_rows(rows(tuples@), floats.model()),
            out@.len() == i,
            forall|k: int| 0 <= k < i ==> texts((#[trigger] out@[k])@) == whole[k],
        decreases tuples@.len() - i,
    {
        assert(rows(tuples@)[i as int] == tuples@[i as int]@);
        out.push(show_row(&tuples[i], floats));
        i = i + 1;
    }
    assert(text_rows(out@) =~= whole);
    out
}

fn name_of(alias: &Option<String>, table: &String) -> (r: String)
    ensures
        r@ == called(optional_text(*alias), table@),
{
    match alias {
        Some(a) => a.clone(),
        None => table.clone(),
    }
}

fn missing_input(node: &LogicalPlanNode) -> (r: DatabaseError)
    ensures
        r@ == no_input(node@),
{
    let name = match node {
        LogicalPlanNode::Scan { .. } => "Scan",
        LogicalPlanNode::Filter { .. } => "Filter",
        LogicalPlanNode::Join { .. } => "JOIN",
        LogicalPlanNode::Aggregate { .. } => "Aggregate",
        LogicalPlanNode::Project { .. } => "Project",
        LogicalPlanNode::Sort { .. } => "Sort",
        LogicalPlanNode::Distinct { .. } => "Distinct",
        LogicalPlanNode::Limit { .. } => "Limit",
    };
    DatabaseError::ExecutionError(join2(name, " with no input"))
}

impl QueryExecutor {
    fn run_join<F: Floats>(
        &self,
        node: &LogicalPlanNode,
        input: &Relation,
        qualifier: &Option<String>,
        floats: &F,
    ) -> (r: Result<Relation, DatabaseError>)
        requires
            self.wf(),
            floats.sound(),
            node is Join,
        ensures
            relation_result(r) == stepped(
                self@,
                node@,
                input@,
                optional_text(*qualifier),
                floats.model(),
            ),
    {
        match node {
            LogicalPlanNode::Join {
                right_table,
                right_alias,
                condition,
                equi_match,
                kind,
                ..
            } => {
                let right = match self.scan_table_tuples(right_table.as_str()) {
                    Ok(r) => r,
                    Err(e) => {
                        return Err(e);
                    },
                };
                let right_prefix = name_of(right_alias, right_table);
                let left_prefix: Option<&str> = match qualifier {
                    Some(q) => Some(q.as_str()),
                    None => None,
                };
                let on: Option<&str> = match condition {
                    Some(c) => Some(c.as_str()),
                    None => None,
                };
                apply_join(
                    input,
                    left_prefix,
                    &right,
                    right_prefix.as_str(),
                    right_table.as_str(),
                    on,
                    equi_match,
                    *kind,
                    floats,
                )
            },
            _ => Err(missing_input(node)),
        }
    }

    /// Applies a step to what has been read.
    fn run_step<F: Floats>(
        &self,
        node: &LogicalPlanNode,
        input: Relation,
        qualifier: &Option<String>,
        floats: &F,
    ) -> (r: Result<Relation, DatabaseError>)
        requires
            self.wf(),
            floats.sound(),
        ensures
            relation_result(r) == stepped(
                self@,
                node@,
                input@,
                optional_text(*qualifier),
                floats.model(),
            ),
    {
        match node {
            LogicalPlanNode::Scan { .. } => Ok(input),
            LogicalPlanNode::Filter { predicate, .. } => apply_filter(
                input,
                predicate.as_str(),
                floats,
            ),
            LogicalPlanNode::Join { .. } => self.run_join(node, &input, qualifier, floats),
            LogicalPlanNode::Aggregate { columns, group_by, having, .. } => {
                let clause: Option<&str> = match having {
                    Some(h) => Some(h.as_str()),
                    None => None,
                };
                apply_aggregate(input, columns, group_by, clause, floats)
            },
            LogicalPlanNode::Project { columns, .. } => apply_project(input, columns),
            LogicalPlanNode::Sort { keys, .. } => apply_sort(input, keys, floats),
            LogicalPlanNode::Distinct { .. } => {
                let tuples = apply_distinct(input.tuples);
                Ok(Relation { schema: input.schema, tuples })
            },
            LogicalPlanNode::Limit { limit, offset, .. } => {
                let tuples = apply_limit(input.tuples, *limit, *offset);
                Ok(Relation { schema: input.schema, tuples })
            },
        }
    }

    fn run_shortcut<F: Floats>(
        &self,
        table_name: &String,
        next: Option<&LogicalPlanNode>,
        floats: &F,
    ) -> (r: Result<Option<Relation>, DatabaseError>)
        requires
            self.wf(),
            floats.sound(),
        ensures
            scan_result(r) == match next {
                Some(n) => match n@ {
                    NodeModel::Filter { predicate, split, .. } => shortcut(
                        self@,
                        table_name@,
                        predicate,
                        split,
                        floats.model(),
                    ),
                    _ => Ok(None),
                },
                None => Ok(None),
            },
    {
        match next {
            Some(LogicalPlanNode::Filter { predicate, split, .. }) => match split {
                Some(t) => self.try_indexed_scan_split(
                    table_name.as_str(),
                    t.0.as_str(),
                    t.1.as_str(),
                    t.2.as_str(),
                    floats,
                ),
                None => self.try_indexed_scan(table_name.as_str(), predicate.as_str(), floats),
            },
            _ => Ok(None),
        }
    }

    /// Runs a plan against what has been committed by now, and gives the texts of
    /// the rows that it yields.
    pub fn execute<F: Floats>(&self, plan: &PhysicalPlan, floats: &F) -> (r: Result<
        Vec<Vec<String>>,
        DatabaseError,
    >)
        requires
            self.wf(),
            floats.sound(),
        ensures
            answer_result(r) == answered(self@, plan@.nodes, floats.model()),
    {
        let ghost db = self@;
        let ghost fl = floats.model();
        let ghost nodes = plan@.nodes;
        let ghost whole = ran(db, nodes, 0, Flow { relation: None, qualifier: None }, fl);
        let mut current: Option<Relation> = None;
        let mut qualifier: Option<String> = None;
        let mut i: usize = 0;
        while i < plan.nodes.len()
            invariant
                i <= plan.nodes@.len(),
                self.wf(),
                floats.sound(),
                db == self@,
                fl == floats.model(),
                nodes == node_models(plan.nodes@),
                nodes == plan@.nodes,
                whole == ran(db, nodes, 0, Flow { relation: None, qualifier: None }, fl),
                whole == ran(
                    db,
                    nodes,
                    i as int,
                    Flow {
                        relation: match current {
                            Some(r) => Some(r@),
                            None => None,
                        },
                        qualifier: optional_text(qualifier),
                    },
                    fl,
                ),
            decreases plan.nodes@.len() - i,
        {
            let node = &plan.nodes[i];
            assert(nodes[i as int] == node@);
            match node {
                LogicalPlanNode::Scan { table_name, alias, .. } => {
                    let next: Option<&LogicalPlanNode> = if i + 1 < plan.nodes.len() {
                        Some(&plan.nodes[i + 1])
                    } else {
                        None
                    };
                    proof {
                        if i + 1 < plan.nodes@.len() {
                            assert(nodes[i + 1] == plan.nodes@[i + 1]@);
                        }
                    }
                    let named = name_of(alias, table_name);
                    match self.run_shortcut(table_name, next, floats) {
                        Err(e) => {
                            return Err(e);
                        },
                        Ok(Some(r)) => {
                            assert(i + 1 < plan.nodes@.len());
                            current = Some(r);
                            qualifier = Some(named);
                            i = i + 2;
                        },
                        Ok(None) => {
                            match self.scan_table_tuples(table_name.as_str()) {
                                Err(e) => {
                                    return Err(e);
                                },
                                Ok(r) => {
                                    current = Some(r);
                                    qualifier = Some(named);
                                    i = i + 1;
                                },
                            }
                        },
                    }
                },
                _ => {
                    match current {
                        None => {
                            return Err(missing_input(node));
                        },
                        Some(input) => {
                            match self.run_step(node, input, &qualifier, floats) {
                                Err(e) => {
                                    return Err(e);
                                },
                                Ok(r) => {
                                    current = Some(r);
                                    match node {
                                        LogicalPlanNode::Join { .. } => {
                                            qualifier = None;
                                        },
                                        _ => {},
                                    }
                                    i = i + 1;
                                },
                            }
                        },
                    }
                },
            }
        }
        match current {
            Some(r) => Ok(show_rows(&r.tuples, floats)),
            None => {
                let none: Vec<Vec<String>> = Vec::new();
                assert(text_rows(none@) =~= Seq::<Seq<Seq<char>>>::empty());
                Ok(none)
            },
        }
    }
}

} // verus!
