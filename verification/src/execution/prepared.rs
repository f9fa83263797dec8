//! Statements with placeholders, and how parameters are put in their places.

use vstd::prelude::*;
use crate::error::{DatabaseError, Fault};
use crate::execution::aggregate::optional_text;
use crate::execution::operators::{data, Datum, Value};
use crate::execution::relation::execution_fault;
use crate::execution::row_codec::ordering::key_models;
use crate::execution::row_codec::placeholders::{
    field_substituted, mixed, mixed_styles, scan_placeholders, scanned, substitute_placeholders,
    substitute_token, substituted, Counts,
};
use crate::execution::row_codec::tokens::tokens_of;
use crate::float::{FloatModel, Floats};
use crate::optimizer::planner::{
    copy_equi, copy_optional, node_models, split_model, LogicalPlanNode, NodeModel, PhysicalPlan,
    PlanModel,
};
use crate::sql::parser::{
    join_models, text_pairs, text_rows, DeleteModel, DeleteStatement, InsertModel, InsertStatement,
    JoinClause, JoinModel, SQLStatement, StatementModel, UpdateModel, UpdateStatement,
};
use crate::text::{chars_of, copy_texts, decimal, join4, join5, texts, unsigned_to_text};

verus! {

// ---- counting placeholders --------------------------------------------------------------

/// The conditions of the joins from the `i`-th on.
pub open spec fn conditions_from(joins: Seq<JoinModel>, i: int) -> Seq<Seq<char>>
    decreases joins.len() - i,
{
    if 0 <= i < joins.len() {
        let rest = conditions_from(joins, i + 1);
        match joins[i].condition {
            Some(c) => seq![c] + rest,
            None => rest,
        }
    } else {
        Seq::empty()
    }
}

/// The values of the rows from the `i`-th on.
pub open spec fn values_from(values: Seq<Seq<Seq<char>>>, i: int) -> Seq<Seq<char>>
    decreases values.len() - i,
{
    if 0 <= i < values.len() {
        values[i] + values_from(values, i + 1)
    } else {
        Seq::empty()
    }
}

/// A predicate, where there is one.
pub open spec fn clause_field(clause: Option<Seq<char>>) -> Seq<Seq<char>> {
    match clause {
        Some(p) => seq![p],
        None => Seq::empty(),
    }
}

/// The right-hand sides of assignments.
pub open spec fn right_sides(assignments: Seq<(Seq<char>, Seq<char>)>) -> Seq<Seq<char>> {
    assignments.map_values(|a: (Seq<char>, Seq<char>)| a.1)
}

/// The texts of a statement in which a placeholder can stand.
pub open spec fn placeholder_fields(s: StatementModel) -> Seq<Seq<char>> {
    match s {
        StatementModel::Select(q) => conditions_from(q.joins, 0) + clause_field(q.where_clause)
            + clause_field(q.having),
        StatementModel::Insert(q) => values_from(q.values, 0),
        StatementModel::Update(q) => right_sides(q.assignments) + clause_field(q.where_clause),
        StatementModel::Delete(q) => clause_field(q.where_clause),
        _ => Seq::empty(),
    }
}

/// The fault of a statement whose placeholders cannot be counted.
pub open spec fn too_long() -> Fault {
    execution_fault("the statement is too long"@)
}

/// What has been counted after one more text; the styles of placeholders must not
/// be mixed.
pub open spec fn field_counted(field: Seq<char>, c: Counts) -> Result<Counts, Fault> {
    if c.positional + field.len() > usize::MAX {
        Err(too_long())
    } else {
        let after = scanned(tokens_of(field), 0, c);
        if tokens_of(field).len() > 0 && mixed(after) {
            Err(mixed_styles())
        } else {
            Ok(after)
        }
    }
}

/// What has been counted after the texts from the `i`-th on.
pub open spec fn fields_counted(fields: Seq<Seq<char>>, i: int, c: Counts) -> Result<Counts, Fault>
    decreases fields.len() - i,
{
    if 0 <= i < fields.len() {
        match field_counted(fields[i], c) {
            Ok(next) => fields_counted(fields, i + 1, next),
            Err(f) => Err(f),
        }
    } else {
        Ok(c)
    }
}

/// Nothing has been counted.
pub open spec fn no_counts() -> Counts {
    Counts { positional: 0, indexed: 0 }
}

/// How many parameters a statement needs: as many as it has `?`, or the largest `N`
/// of its `$N`.
pub open spec fn parameters_needed(s: StatementModel) -> Result<int, Fault> {
    match fields_counted(placeholder_fields(s), 0, no_counts()) {
        Ok(c) => Ok(
            if c.positional > c.indexed {
                c.positional
            } else {
                c.indexed
            },
        ),
        Err(f) => Err(f),
    }
}

fn push_clause(fields: &mut Vec<String>, clause: &Option<String>)
    ensures
        texts(final(fields)@) == texts(old(fields)@) + clause_field(optional_text(*clause)),
{
    let ghost before = texts(fields@);
    if let Some(p) = clause {
        fields.push(p.clone());
        assert(texts(fields@) =~= before + seq![p@]);
    } else {
        assert(texts(fields@) =~= before + Seq::<Seq<char>>::empty());
    }
}

fn join_conditions(joins: &Vec<JoinClause>) -> (r: Vec<String>)
    ensures
        texts(r@) == conditions_from(join_models(joins@), 0),
{
    let ghost all = join_models(joins@);
    let mut out: Vec<String> = Vec::new();
    let mut i: usize = 0;
    assert(texts(out@) + conditions_from(all, 0) =~= conditions_from(all, 0));
    while i < joins.len()
        invariant
            i <= joins@.len(),
            all == join_models(joins@),
            conditions_from(all, 0) == texts(out@) + conditions_from(all, i as int),
        decreases joins@.len() - i,
    {
        assert(all[i as int] == joins@[i as int]@);
        let ghost before = texts(out@);
        let ghost rest = conditions_from(all, i + 1);
        if let Some(c) = &joins[i].condition {
            out.push(c.clone());
            assert(texts(out@) =~= before.push(c@));
            assert(before + (seq![c@] + rest) =~= texts(out@) + rest);
        }
        i = i + 1;
    }
    assert(texts(out@) + Seq::<Seq<char>>::empty() =~= texts(out@));
    out
}

fn insert_values(values: &Vec<Vec<String>>) -> (r: Vec<String>)
    ensures
        texts(r@) == values_from(text_rows(values@), 0),
{
    let ghost all = text_rows(values@);
    let mut out: Vec<String> = Vec::new();
    let mut i: usize = 0;
    assert(texts(out@) + values_from(all, 0) =~= values_from(all, 0));
    while i < values.len()
        invariant
            i <= values@.len(),
            all == text_rows(values@),
            values_from(all, 0) == texts(out@) + values_from(all, i as int),
        decreases values@.len() - i,
    {
        assert(all[i as int] == texts(values@[i as int]@));
        let ghost before = texts(out@);
        let ghost row = all[i as int];
        let ghost rest = values_from(all, i + 1);
        let mut j: usize = 0;
        assert(before + row.take(0) =~= before);
        while j < values[i].len()
            invariant
                i < values@.len(),
                j <= values@[i as int]@.len(),
                row == texts(values@[i as int]@),
                texts(out@) == before + row.take(j as int),
            decreases values@[i as int]@.len() - j,
        {
            let ghost so_far = texts(out@);
            out.push(values[i][j].clone());
            assert(texts(out@) =~= so_far.push(row[j as int]));
            assert(before + row.take(j + 1) =~= texts(out@));
            j = j + 1;
        }
        assert(row.take(j as int) =~= row);
        assert(before + (row + rest) =~= texts(out@) + rest);
        i = i + 1;
    }
    assert(texts(out@) + Seq::<Seq<char>>::empty() =~= texts(out@));
    out
}

fn assignment_sides(assignments: &Vec<(String, String)>) -> (r: Vec<String>)
    ensures
        texts(r@) == right_sides(text_pairs(assignments@)),
{
    let ghost all = right_sides(text_pairs(assignments@));
    let mut out: Vec<String> = Vec::new();
    let mut i: usize = 0;
    while i < assignments.len()
        invariant
            i <= assignments@.len(),
            all == right_sides(text_pairs(assignments@)),
            texts(out@) == all.take(i as int),
        decreases assignments@.len() - i,
    {
        let ghost before = texts(out@);
        out.push(assignments[i].1.clone());
        assert(texts(out@) =~= before.push(all[i as int]));
        assert(all.take(i + 1) =~= before.push(all[i as int]));
        i = i + 1;
    }
    assert(all.take(i as int) =~= all);
    out
}

fn statement_fields(stmt: &SQLStatement) -> (r: Vec<String>)
    ensures
        texts(r@) == placeholder_fields(stmt@),
{
    match stmt {
        SQLStatement::Select(select) => {
            let mut fields = join_conditions(&select.joins);
            push_clause(&mut fields, &select.where_clause);
            push_clause(&mut fields, &select.having);
            fields
        },
        SQLStatement::Insert(insert) => insert_values(&insert.values),
        SQLStatement::Update(update) => {
            let mut fields = assignment_sides(&update.assignments);
            push_clause(&mut fields, &update.where_clause);
            fields
        },
        SQLStatement::Delete(delete) => {
            let mut fields: Vec<String> = Vec::new();
            push_clause(&mut fields, &delete.where_clause);
            assert(texts(fields@) =~= clause_field(optional_text(delete.where_clause)));
            fields
        },
        _ => {
            let fields: Vec<String> = Vec::new();
            assert(texts(fields@) =~= Seq::<Seq<char>>::empty());
            fields
        },
    }
}

/// How many parameters a statement needs.
pub fn scan_statement_placeholders(stmt: &SQLStatement) -> (r: Result<usize, DatabaseError>)
    ensures
        match r {
            Ok(n) => parameters_needed(stmt@) == Ok::<int, Fault>(n as int),
            Err(e) => parameters_needed(stmt@) == Err::<int, Fault>(e@),
        },
{
    let fields = statement_fields(stmt);
    let ghost all = placeholder_fields(stmt@);
    let mut positional: usize = 0;
    let mut indexed: usize = 0;
    let mut i: usize = 0;
    while i < fields.len()
        invariant
            i <= fields@.len(),
            all == texts(fields@),
            fields_counted(all, 0, no_counts()) == fields_counted(
                all,
                i as int,
                Counts { positional: positional as int, indexed: indexed as int },
            ),
            all == placeholder_fields(stmt@),
        decreases fields@.len() - i,
    {
        assert(all[i as int] == fields@[i as int]@);
        let length: usize = chars_of(fields[i].as_str()).len();
        if length > usize::MAX - positional {
            return Err(DatabaseError::ExecutionError("the statement is too long".to_owned()));
        }
        match scan_placeholders(fields[i].as_str(), &mut positional, &mut indexed) {
            Ok(_) => {},
            Err(e) => {
                return Err(e);
            },
        }
        i = i + 1;
    }
    Ok(
        if positional > indexed {
            positional
        } else {
            indexed
        },
    )
}

// ---- putting parameters in --------------------------------------------------------------

/// Texts with their parameters put in, or a fault, and the number of the next `?`.
pub struct BoundTexts {
    pub texts: Result<Seq<Seq<char>>, Fault>,
    pub next: int,
}

/// The texts from the `i`-th on with their parameters put in, after `done`.
pub open spec fn bound_list(
    fields: Seq<Seq<char>>,
    i: int,
    done: Seq<Seq<char>>,
    params: Seq<Datum>,
    next: int,
    fl: FloatModel,
) -> BoundTexts
    decreases fields.len() - i,
{
    if 0 <= i < fields.len() {
        let s = field_substituted(fields[i], params, next, fl);
        match s.text {
            Ok(t) => bound_list(fields, i + 1, done.push(t), params, s.next, fl),
            Err(f) => BoundTexts { texts: Err(f), next: s.next },
        }
    } else {
        BoundTexts { texts: Ok(done), next }
    }
}

/// The rows from the `i`-th on with their parameters put in, after `done`.
pub open spec fn bound_rows(
    values: Seq<Seq<Seq<char>>>,
    i: int,
    done: Seq<Seq<Seq<char>>>,
    params: Seq<Datum>,
    next: int,
    fl: FloatModel,
) -> Result<Seq<Seq<Seq<char>>>, Fault>
    decreases values.len() - i,
{
    if 0 <= i < values.len() {
        let b = bound_list(values[i], 0, Seq::empty(), params, next, fl);
        match b.texts {
            Ok(row) => bound_rows(values, i + 1, done.push(row), params, b.next, fl),
            Err(f) => Err(f),
        }
    } else {
        Ok(done)
    }
}

/// A predicate with its parameters put in, where there is one.
pub open spec fn bound_clause(
    clause: Option<Seq<char>>,
    params: Seq<Datum>,
    next: int,
    fl: FloatModel,
) -> Result<Option<Seq<char>>, Fault> {
    match clause {
        Some(p) => match field_substituted(p, params, next, fl).text {
            Ok(t) => Ok(Some(t)),
            Err(f) => Err(f),
        },
        None => Ok(None),
    }
}

/// Assignments with new right-hand sides.
pub open spec fn reassigned(
    assignments: Seq<(Seq<char>, Seq<char>)>,
    sides: Seq<Seq<char>>,
) -> Seq<(Seq<char>, Seq<char>)> {
    Seq::new(assignments.len(), |i: int| (assignments[i].0, sides[i]))
}

/// A step with its parameters put in, or a fault, and the number of the next `?`.
pub struct BoundNode {
    pub node: Result<NodeModel, Fault>,
    pub next: int,
}

/// A step with its parameters put in: those of a filter, of a join's condition and of
/// `HAVING`.
pub open spec fn bound_node(node: NodeModel, params: Seq<Datum>, next: int, fl: FloatModel) -> BoundNode {
    match node {
        NodeModel::Filter { predicate, split, rows } => match split {
            Some(t) => {
                let l = substituted(t.0, params, next, fl);
                match l.text {
                    Err(f) => BoundNode { node: Err(f), next: l.next },
                    Ok(left) => {
                        let r = substituted(t.2, params, l.next, fl);
                        match r.text {
                            Err(f) => BoundNode { node: Err(f), next: r.next },
                            Ok(right) => BoundNode {
                                node: Ok(
                                    NodeModel::Filter {
                                        predicate: left + " "@ + t.1 + " "@ + right,
                                        split: Some((left, t.1, right)),
                                        rows,
                                    },
                                ),
                                next: r.next,
                            },
                        }
                    },
                }
            },
            None => {
                let s = field_substituted(predicate, params, next, fl);
                match s.text {
                    Err(f) => BoundNode { node: Err(f), next: s.next },
                    Ok(p) => BoundNode {
                        node: Ok(NodeModel::Filter { predicate: p, split: None, rows }),
                        next: s.next,
                    },
                }
            },
        },
        NodeModel::Join {
            right_table,
            right_alias,
            condition: Some(c),
            equi_match,
            left_rows,
            right_rows,
            kind,
        } => {
            let s = field_substituted(c, params, next, fl);
            match s.text {
                Err(f) => BoundNode { node: Err(f), next: s.next },
                Ok(t) => BoundNode {
                    node: Ok(
                        NodeModel::Join {
                            right_table,
                            right_alias,
                            condition: Some(t),
                            equi_match,
                            left_rows,
                            right_rows,
                            kind,
                        },
                    ),
                    next: s.next,
                },
            }
        },
        NodeModel::Aggregate { columns, group_by, having: Some(h), rows } => {
            let s = field_substituted(h, params, next, fl);
            match s.text {
                Err(f) => BoundNode { node: Err(f), next: s.next },
                Ok(t) => BoundNode {
                    node: Ok(NodeModel::Aggregate { columns, group_by, having: Some(t), rows }),
                    next: s.next,
                },
            }
        },
        other => BoundNode { node: Ok(other), next },
    }
}

/// The steps from the `i`-th on with their parameters put in, after `done`.
pub open spec fn bound_nodes(
    nodes: Seq<NodeModel>,
    i: int,
    done: Seq<NodeModel>,
    params: Seq<Datum>,
    next: int,
    fl: FloatModel,
) -> Result<Seq<NodeModel>, Fault>
    decreases nodes.len() - i,
{
    if 0 <= i < nodes.len() {
        let b = bound_node(nodes[i], params, next, fl);
        match b.node {
            Ok(n) => bound_nodes(nodes, i + 1, done.push(n), params, b.next, fl),
            Err(f) => Err(f),
        }
    } else {
        Ok(done)
    }
}

/// A statement that has been parsed, and planned where it is a query.
pub enum PreparedKind {
    Select(PhysicalPlan),
    Insert(InsertStatement),
    Update(UpdateStatement),
    Delete(DeleteStatement),
}

/// A prepared statement as contracts speak of it.
pub enum PreparedModel {
    Select(PlanModel),
    Insert(InsertModel),
    Update(UpdateModel),
    Delete(DeleteModel),
}

impl View for PreparedKind {
    type V = PreparedModel;

    open spec fn view(&self) -> PreparedModel {
        match *self {
            PreparedKind::Select(p) => PreparedModel::Select(p@),
            PreparedKind::Insert(s) => PreparedModel::Insert(s@),
            PreparedKind::Update(s) => PreparedModel::Update(s@),
            PreparedKind::Delete(s) => PreparedModel::Delete(s@),
        }
    }
}

/// A statement that can be run many times, with other parameters each time.
pub struct PreparedStatement {
    pub kind: PreparedKind,
    /// How many parameters it needs.
    pub param_count: usize,
}

/// A statement with its parameters put in.
pub open spec fn bound_kind(k: PreparedModel, params: Seq<Datum>, fl: FloatModel) -> Result<
    PreparedModel,
    Fault,
> {
    match k {
        PreparedModel::Select(p) => match bound_nodes(p.nodes, 0, Seq::empty(), params, 0, fl) {
            Ok(nodes) => Ok(PreparedModel::Select(PlanModel { nodes, ..p })),
            Err(f) => Err(f),
        },
        PreparedModel::Insert(q) => match bound_rows(q.values, 0, Seq::empty(), params, 0, fl) {
            Ok(values) => Ok(PreparedModel::Insert(InsertModel { values, ..q })),
            Err(f) => Err(f),
        },
        PreparedModel::Update(q) => {
            let b = bound_list(right_sides(q.assignments), 0, Seq::empty(), params, 0, fl);
            match b.texts {
                Err(f) => Err(f),
                Ok(sides) => match bound_clause(q.where_clause, params, b.next, fl) {
                    Err(f) => Err(f),
                    Ok(where_clause) => Ok(
                        PreparedModel::Update(
                            UpdateModel {
                                assignments: reassigned(q.assignments, sides),
                                where_clause,
                                ..q
                            },
                        ),
                    ),
                },
            }
        },
        PreparedModel::Delete(q) => match bound_clause(q.where_clause, params, 0, fl) {
            Ok(where_clause) => Ok(PreparedModel::Delete(DeleteModel { where_clause, ..q })),
            Err(f) => Err(f),
        },
    }
}

/// The fault of too few parameters.
pub open spec fn parameters_missing(needed: int, given: int) -> Fault {
    execution_fault(
        "prepared statement expects "@ + decimal(needed) + " parameter(s), got "@ + decimal(given),
    )
}

/// A prepared statement with its parameters put in. There may be more parameters
/// than it needs.
pub open spec fn bound_statement(
    k: PreparedModel,
    param_count: usize,
    params: Seq<Datum>,
    fl: FloatModel,
) -> Result<PreparedModel, Fault> {
    if params.len() < param_count {
        Err(parameters_missing(param_count as int, params.len() as int))
    } else {
        bound_kind(k, params, fl)
    }
}

/// A statement or an error, as its model.
pub open spec fn kind_result(r: Result<PreparedKind, DatabaseError>) -> Result<PreparedModel, Fault> {
    match r {
        Ok(k) => Ok(k@),
        Err(e) => Err(e@),
    }
}

fn bind_list<F: Floats>(fields: &Vec<String>, params: &[Value], next: &mut usize, floats: &F) -> (r:
    Result<Vec<String>, DatabaseError>)
    requires
        floats.sound(),
    ensures
        ({
            let b = bound_list(
                texts(fields@),
                0,
                Seq::empty(),
                data(params@),
                *old(next) as int,
                floats.model(),
            );
            &&& *final(next) == b.next
            &&& match r {
                Ok(v) => b.texts == Ok::<Seq<Seq<char>>, Fault>(texts(v@)) && v@.len()
                    == fields@.len(),
                Err(e) => b.texts == Err::<Seq<Seq<char>>, Fault>(e@),
            }
        }),
{
    let ghost all = texts(fields@);
    let ghost ps = data(params@);
    let ghost fl = floats.model();
    let ghost start = *next as int;
    let mut out: Vec<String> = Vec::new();
    let mut i: usize = 0;
    assert(texts(out@) =~= Seq::<Seq<char>>::empty());
    while i < fields.len()
        invariant
            i <= fields@.len(),
            floats.sound(),
            all == texts(fields@),
            ps == data(params@),
            fl == floats.model(),
            start == *old(next) as int,
            out@.len() == i,
            bound_list(all, 0, Seq::empty(), ps, start, fl) == bound_list(
                all,
                i as int,
                texts(out@),
                ps,
                *next as int,
                fl,
            ),
        decreases fields@.len() - i,
    {
        assert(all[i as int] == fields@[i as int]@);
        let ghost before = texts(out@);
        match substitute_placeholders(fields[i].as_str(), params, next, floats) {
            Ok(t) => {
                out.push(t);
                assert(texts(out@) =~= before.push(t@));
            },
            Err(e) => {
                return Err(e);
            },
        }
        i = i + 1;
    }
    Ok(out)
}

fn bind_clause<F: Floats>(
    clause: &Option<String>,
    params: &[Value],
    next: &mut usize,
    floats: &F,
) -> (r: Result<Option<String>, DatabaseError>)
    requires
        floats.sound(),
    ensures
        match r {
            Ok(c) => bound_clause(
                optional_text(*clause),
                data(params@),
                *old(next) as int,
                floats.model(),
            ) == Ok::<Option<Seq<char>>, Fault>(optional_text(c)),
            Err(e) => bound_clause(
                optional_text(*clause),
                data(params@),
                *old(next) as int,
                floats.model(),
            ) == Err::<Option<Seq<char>>, Fault>(e@),
        },
{
    match clause {
        Some(p) => match substitute_placeholders(p.as_str(), params, next, floats) {
            Ok(t) => Ok(Some(t)),
            Err(e) => Err(e),
        },
        None => Ok(None),
    }
}

fn bind_rows<F: Floats>(values: &Vec<Vec<String>>, params: &[Value], floats: &F) -> (r: Result<
    Vec<Vec<String>>,
    DatabaseError,
>)
    requires
        floats.sound(),
    ensures
        match r {
            Ok(v) => bound_rows(
                text_rows(values@),
                0,
                Seq::empty(),
                data(params@),
                0,
                floats.model(),
            ) == Ok::<Seq<Seq<Seq<char>>>, Fault>(text_rows(v@)),
            Err(e) => bound_rows(
                text_rows(values@),
                0,
                Seq::empty(),
                data(params@),
                0,
                floats.model(),
            ) == Err::<Seq<Seq<Seq<char>>>, Fault>(e@),
        },
{
    let ghost all = text_rows(values@);
    let ghost ps = data(params@);
    let ghost fl = floats.model();
    let mut next: usize = 0;
    let mut out: Vec<Vec<String>> = Vec::new();
    let mut i: usize = 0;
    assert(text_rows(out@) =~= Seq::<Seq<Seq<char>>>::empty());
    while i < values.len()
        invariant
            i <= values@.len(),
            floats.sound(),
            all == text_rows(values@),
            ps == data(params@),
            fl == floats.model(),
            bound_rows(all, 0, Seq::empty(), ps, 0, fl) == bound_rows(
                all,
                i as int,
                text_rows(out@),
                ps,
                next as int,
                fl,
            ),
        decreases values@.len() - i,
    {
        assert(all[i as int] == texts(values@[i as int]@));
        let ghost before = text_rows(out@);
        match bind_list(&values[i], params, &mut next, floats) {
            Ok(row) => {
                out.push(row);
                assert(text_rows(out@) =~= before.push(texts(row@)));
            },
            Err(e) => {
                return Err(e);
            },
        }
        i = i + 1;
    }
    Ok(out)
}

fn copy_keys(keys: &Vec<(String, bool)>) -> (r: Vec<(String, bool)>)
    ensures
        key_models(r@) == key_models(keys@),
{
    let mut out: Vec<(String, bool)> = Vec::new();
    let mut i: usize = 0;
    while i < keys.len()
        invariant
            i <= keys@.len(),
            out@.len() == i,
            forall|k: int|
                0 <= k < i ==> (#[trigger] out@[k]).0@ == keys@[k].0@ && out@[k].1 == keys@[k].1,
        decreases keys@.len() - i,
    {
        out.push((keys[i].0.clone(), keys[i].1));
        i = i + 1;
    }
    assert(key_models(out@) =~= key_models(keys@));
    out
}

fn bind_filter<F: Floats>(
    predicate: &String,
    split: &Option<(String, String, String)>,
    rows: usize,
    params: &[Value],
    next: &mut usize,
    floats: &F,
) -> (r: Result<LogicalPlanNode, DatabaseError>)
    requires
        floats.sound(),
    ensures
        ({
            let b = bound_node(
                NodeModel::Filter { predicate: predicate@, split: split_model(*split), rows },
                data(params@),
                *old(next) as int,
                floats.model(),
            );
            &&& *final(next) == b.next
            &&& match r {
                Ok(n) => b.node == Ok::<NodeModel, Fault>(n@),
                Err(e) => b.node == Err::<NodeModel, Fault>(e@),
            }
        }),
{
    match split {
        Some(t) => {
            let left = match substitute_token(t.0.as_str(), params, next, floats) {
                Ok(s) => s,
                Err(e) => {
                    return Err(e);
                },
            };
            let right = match substitute_token(t.2.as_str(), params, next, floats) {
                Ok(s) => s,
                Err(e) => {
                    return Err(e);
                },
            };
            let whole = join5(left.as_str(), " ", t.1.as_str(), " ", right.as_str());
            Ok(
                LogicalPlanNode::Filter {
                    predicate: whole,
                    split: Some((left, t.1.clone(), right)),
                    rows,
                },
            )
        },
        None => match substitute_placeholders(predicate.as_str(), params, next, floats) {
            Ok(p) => Ok(LogicalPlanNode::Filter { predicate: p, split: None, rows }),
            Err(e) => Err(e),
        },
    }
}

fn bind_node<F: Floats>(node: &LogicalPlanNode, params: &[Value], next: &mut usize, floats: &F) -> (r:
    Result<LogicalPlanNode, DatabaseError>)
    requires
        floats.sound(),
    ensures
        ({
            let b = bound_node(node@, data(params@), *old(next) as int, floats.model());
            &&& *final(next) == b.next
            &&& match r {
                Ok(n) => b.node == Ok::<NodeModel, Fault>(n@),
                Err(e) => b.node == Err::<NodeModel, Fault>(e@),
            }
        }),
{
    match node {
        LogicalPlanNode::Scan { table_id, table_name, alias, rows } => Ok(
            LogicalPlanNode::Scan {
                table_id: *table_id,
                table_name: table_name.clone(),
                alias: copy_optional(alias),
                rows: *rows,
            },
        ),
        LogicalPlanNode::Filter { predicate, split, rows } => bind_filter(
            predicate,
            split,
            *rows,
            params,
            next,
            floats,
        ),
        LogicalPlanNode::Join {
            right_table,
            right_alias,
            condition,
            equi_match,
            left_rows,
            right_rows,
            kind,
        } => {
            let condition = match condition {
                Some(c) => match substitute_placeholders(c.as_str(), params, next, floats) {
                    Ok(t) => Some(t),
                    Err(e) => {
                        return Err(e);
                    },
                },
                None => None,
            };
            Ok(
                LogicalPlanNode::Join {
                    right_table: right_table.clone(),
                    right_alias: copy_optional(right_alias),
                    condition,
                    equi_match: copy_equi(equi_match),
                    left_rows: *left_rows,
                    right_rows: *right_rows,
                    kind: *kind,
                },
            )
        },
        LogicalPlanNode::Aggregate { columns, group_by, having, rows } => {
            let having = match having {
                Some(h) => match substitute_placeholders(h.as_str(), params, next, floats) {
                    Ok(t) => Some(t),
                    Err(e) => {
                        return Err(e);
                    },
                },
                None => None,
            };
            Ok(
                LogicalPlanNode::Aggregate {
                    columns: copy_texts(columns),
                    group_by: copy_texts(group_by),
                    having,
                    rows: *rows,
                },
            )
        },
        LogicalPlanNode::Project { columns, rows } => Ok(
            LogicalPlanNode::Project { columns: copy_texts(columns), rows: *rows },
        ),
        LogicalPlanNode::Sort { keys, rows } => Ok(
            LogicalPlanNode::Sort { keys: copy_keys(keys), rows: *rows },
        ),
        LogicalPlanNode::Distinct { rows } => Ok(LogicalPlanNode::Distinct { rows: *rows }),
        LogicalPlanNode::Limit { limit, offset, rows } => Ok(
            LogicalPlanNode::Limit { limit: *limit, offset: *offset, rows: *rows },
        ),
    }
}

fn bind_plan<F: Floats>(plan: &PhysicalPlan, params: &[Value], floats: &F) -> (r: Result<
    PhysicalPlan,
    DatabaseError,
>)
    requires
        floats.sound(),
    ensures
        match r {
            Ok(p) => p@.cost == plan@.cost && p@.rows == plan@.rows && bound_nodes(
                plan@.nodes,
                0,
                Seq::empty(),
                data(params@),
                0,
                floats.model(),
            ) == Ok::<Seq<NodeModel>, Fault>(p@.nodes),
            Err(e) => bound_nodes(
                plan@.nodes,
                0,
                Seq::empty(),
                data(params@),
                0,
                floats.model(),
            ) == Err::<Seq<NodeModel>, Fault>(e@),
        },
{
    let ghost all = plan@.nodes;
    let ghost ps = data(params@);
    let ghost fl = floats.model();
    let mut next: usize = 0;
    let mut nodes: Vec<LogicalPlanNode> = Vec::new();
    let mut i: usize = 0;
    assert(node_models(nodes@) =~= Seq::<NodeModel>::empty());
    while i < plan.nodes.len()
        invariant
            i <= plan.nodes@.len(),
            floats.sound(),
            all == plan@.nodes,
            all == node_models(plan.nodes@),
            ps == data(params@),
            fl == floats.model(),
            bound_nodes(all, 0, Seq::empty(), ps, 0, fl) == bound_nodes(
                all,
                i as int,
                node_models(nodes@),
                ps,
                next as int,
                fl,
            ),
        decreases plan.nodes@.len() - i,
    {
        assert(all[i as int] == plan.nodes@[i as int]@);
        let ghost before = node_models(nodes@);
        match bind_node(&plan.nodes[i], params, &mut next, floats) {
            Ok(n) => {
                nodes.push(n);
                assert(node_models(nodes@) =~= before.push(n@));
            },
            Err(e) => {
                return Err(e);
            },
        }
        i = i + 1;
    }
    Ok(
        PhysicalPlan {
            nodes,
            estimated_cost: plan.estimated_cost,
            estimated_rows: plan.estimated_rows,
        },
    )
}

fn bind_update<F: Floats>(update: &UpdateStatement, params: &[Value], floats: &F) -> (r: Result<
    PreparedKind,
    DatabaseError,
>)
    requires
        floats.sound(),
    ensures
        kind_result(r) == bound_kind(
            PreparedModel::Update(update@),
            data(params@),
            floats.model(),
        ),
{
    let mut next: usize = 0;
    let sides = assignment_sides(&update.assignments);
    let bound = match bind_list(&sides, params, &mut next, floats) {
        Ok(v) => v,
        Err(e) => {
            return Err(e);
        },
    };
    let where_clause = match bind_clause(&update.where_clause, params, &mut next, floats) {
        Ok(c) => c,
        Err(e) => {
            return Err(e);
        },
    };
    assert(texts(sides@).len() == sides@.len());
    let ghost want = reassigned(text_pairs(update.assignments@), texts(bound@));
    let mut assignments: Vec<(String, String)> = Vec::new();
    let mut i: usize = 0;
    while i < update.assignments.len()
        invariant
            i <= update.assignments@.len(),
            bound@.len() == update.assignments@.len(),
            want == reassigned(text_pairs(update.assignments@), texts(bound@)),
            assignments@.len() == i,
            forall|k: int|
                0 <= k < i ==> ((#[trigger] assignments@[k]).0@, assignments@[k].1@) == want[k],
        decreases update.assignments@.len() - i,
    {
        assignments.push((update.assignments[i].0.clone(), bound[i].clone()));
        i = i + 1;
    }
    assert(text_pairs(assignments@) =~= want);
    Ok(
        PreparedKind::Update(
            UpdateStatement { table: update.table.clone(), assignments, where_clause },
        ),
    )
}

impl PreparedStatement {
    /// The statement with its parameters put in.
    pub fn bind<F: Floats>(&self, params: &[Value], floats: &F) -> (r: Result<
        PreparedKind,
        DatabaseError,
    >)
        requires
            floats.sound(),
        ensures
            kind_result(r) == bound_statement(
                self.kind@,
                self.param_count,
                data(params@),
                floats.model(),
            ),
    {
        assert(data(params@).len() == params@.len());
        if params.len() < self.param_count {
            let needed = unsigned_to_text(self.param_count as u64);
            let given = unsigned_to_text(params.len() as u64);
            return Err(
                DatabaseError::ExecutionError(
                    join4(
                        "prepared statement expects ",
                        needed.as_str(),
                        " parameter(s), got ",
                        given.as_str(),
                    ),
                ),
            );
        }
        match &self.kind {
            PreparedKind::Select(plan) => match bind_plan(plan, params, floats) {
                Ok(p) => Ok(PreparedKind::Select(p)),
                Err(e) => Err(e),
            },
            PreparedKind::Insert(insert) => match bind_rows(&insert.values, params, floats) {
                Ok(values) => Ok(
                    PreparedKind::Insert(
                        InsertStatement {
                            table: insert.table.clone(),
                            columns: copy_texts(&insert.columns),
                            values,
                        },
                    ),
                ),
                Err(e) => Err(e),
            },
            PreparedKind::Update(update) => bind_update(update, params, floats),
            PreparedKind::Delete(delete) => {
                let mut next: usize = 0;
                match bind_clause(&delete.where_clause, params, &mut next, floats) {
                    Ok(where_clause) => Ok(
                        PreparedKind::Delete(
                            DeleteStatement { table: delete.table.clone(), where_clause },
                        ),
                    ),
                    Err(e) => Err(e),
                }
            },
        }
    }
}

} // verus!
