//! Grouping rows and aggregating the groups.

use vstd::prelude::*;
use crate::error::{DatabaseError, Fault};
use crate::execution::aggregate::{
    aggregate_call, aggregated, call_models, compute_aggregate, extract_calls, extracted,
    named_in_order, optional_str, optional_text, parse_aggregate, stand_in, AggregateFn, Call,
};
use crate::execution::catalog::{column_models, column_place, Column, ColumnModel, DataType, SchemaModel, TableSchema};
use crate::execution::operators::{copy_values, data, datum_eq, rows, Datum, Tuple, Value};
use crate::execution::relation::{
    all_within, as_ints, execution_error, execution_fault, pick_values, picked, relation_result,
    resolve_columns, resolved, rows_reach, short_row, short_row_error, Relation, RelationModel,
};
use crate::execution::row_codec::predicate::{keeps, predicate_of, CompiledPredicate, Expr};
use crate::float::{FloatModel, Floats};
use crate::text::{same, texts};

verus! {

// ---- groups --------------------------------------------------------------------------

/// Rows that share a key, in the order in which they came.
pub struct GroupModel {
    pub key: Seq<Datum>,
    pub rows: Seq<Seq<Datum>>,
}

/// Two keys are equal value by value, floats by their number.
pub open spec fn same_key(a: Seq<Datum>, b: Seq<Datum>) -> bool {
    a.len() == b.len() && forall|i: int| 0 <= i < a.len() ==> datum_eq(#[trigger] a[i], b[i])
}

/// The first group with this key, at `from` or after it.
pub open spec fn group_from(groups: Seq<GroupModel>, key: Seq<Datum>, from: int) -> Option<int>
    decreases groups.len() - from,
{
    if from < 0 || from >= groups.len() {
        None
    } else if same_key(groups[from].key, key) {
        Some(from)
    } else {
        group_from(groups, key, from + 1)
    }
}

/// The groups once one more row has come.
pub open spec fn with_grouped(groups: Seq<GroupModel>, key: Seq<Datum>, row: Seq<Datum>) -> Seq<
    GroupModel,
> {
    match group_from(groups, key, 0) {
        Some(g) => groups.update(
            g,
            GroupModel { key: groups[g].key, rows: groups[g].rows.push(row) },
        ),
        None => groups.push(GroupModel { key, rows: seq![row] }),
    }
}

/// The groups of the first `n` rows by the values at some places, in the order
/// in which their keys first came.
pub open spec fn grouped(input: Seq<Seq<Datum>>, at: Seq<int>, n: int) -> Seq<GroupModel>
    decreases n,
{
    if n <= 0 || n > input.len() {
        Seq::empty()
    } else {
        with_grouped(grouped(input, at, n - 1), picked(input[n - 1], at), input[n - 1])
    }
}

/// The groups of a relation: without grouping columns, one group of all rows.
pub open spec fn groups_of(input: Seq<Seq<Datum>>, at: Seq<int>) -> Seq<GroupModel> {
    if at.len() == 0 {
        seq![GroupModel { key: Seq::empty(), rows: input }]
    } else {
        grouped(input, at, input.len() as int)
    }
}

/// Rows that share a key.
pub struct Group {
    pub key: Vec<Value>,
    pub tuples: Vec<Tuple>,
}

impl View for Group {
    type V = GroupModel;

    open spec fn view(&self) -> GroupModel {
        GroupModel { key: data(self.key@), rows: rows(self.tuples@) }
    }
}

pub open spec fn group_models(v: Seq<Group>) -> Seq<GroupModel> {
    v.map_values(|g: Group| g@)
}

fn keys_equal(a: &Vec<Value>, b: &Vec<Value>) -> (r: bool)
    ensures
        r == same_key(data(a@), data(b@)),
{
    if a.len() != b.len() {
        return false;
    }
    let ghost x = data(a@);
    let ghost y = data(b@);
    let mut i: usize = 0;
    while i < a.len()
        invariant
            i <= a@.len(),
            a@.len() == b@.len(),
            x == data(a@),
            y == data(b@),
            forall|k: int| 0 <= k < i ==> datum_eq(#[trigger] x[k], y[k]),
        decreases a@.len() - i,
    {
        if !(a[i] == b[i]) {
            assert(!datum_eq(x[i as int], y[i as int]));
            return false;
        }
        i = i + 1;
    }
    true
}

fn find_group(groups: &Vec<Group>, key: &Vec<Value>) -> (r: Option<usize>)
    ensures
        match r {
            Some(g) => group_from(group_models(groups@), data(key@), 0) == Some(g as int) && g
                < groups@.len(),
            None => group_from(group_models(groups@), data(key@), 0) is None,
        },
{
    let ghost all = group_models(groups@);
    let mut i: usize = 0;
    while i < groups.len()
        invariant
            i <= groups@.len(),
            all == group_models(groups@),
            group_from(all, data(key@), 0) == group_from(all, data(key@), i as int),
        decreases groups@.len() - i,
    {
        if keys_equal(&groups[i].key, key) {
            return Some(i);
        }
        i = i + 1;
    }
    None
}

/// Adds a row to the group of its key, or begins a new group.
fn add_to_groups(groups: &mut Vec<Group>, key: Vec<Value>, tuple: Tuple)
    ensures
        group_models(final(groups)@) == with_grouped(
            group_models(old(groups)@),
            data(key@),
            tuple@,
        ),
{
    let ghost before = group_models(groups@);
    match find_group(groups, &key) {
        Some(g) => {
            let mut group = groups.remove(g);
            let ghost k = group@.key;
            let ghost rs = group@.rows;
            group.tuples.push(tuple);
            assert(rows(group.tuples@) == rs.push(tuple@));
            groups.insert(g, group);
            assert(group_models(groups@) == before.update(
                g as int,
                GroupModel { key: k, rows: rs.push(tuple@) },
            ));
        },
        None => {
            let ghost k = data(key@);
            let mut tuples: Vec<Tuple> = Vec::new();
            tuples.push(tuple);
            assert(rows(tuples@) == seq![tuple@]);
            groups.push(Group { key, tuples });
            assert(group_models(groups@) == before.push(
                GroupModel { key: k, rows: seq![tuple@] },
            ));
        },
    }
}

/// Groups rows by the values at some places.
pub fn group_rows(tuples: Vec<Tuple>, at: &Vec<usize>) -> (r: Vec<Group>)
    requires
        at@.len() > 0 ==> all_within(rows(tuples@), as_ints(at@)),
    ensures
        group_models(r@) == groups_of(rows(tuples@), as_ints(at@)),
{
    let ghost all = rows(tuples@);
    let ghost ps = as_ints(at@);
    let mut groups: Vec<Group> = Vec::new();
    if at.len() == 0 {
        groups.push(Group { key: Vec::new(), tuples });
        assert(data(groups@[0].key@) == Seq::<Datum>::empty());
        assert(group_models(groups@) == groups_of(all, ps));
        return groups;
    }
    let mut i: usize = 0;
    assert(group_models(groups@) == Seq::<GroupModel>::empty());
    while i < tuples.len()
        invariant
            i <= tuples@.len(),
            all == rows(tuples@),
            ps == as_ints(at@),
            all_within(all, ps),
            group_models(groups@) == grouped(all, ps, i as int),
        decreases tuples@.len() - i,
    {
        assert(all[i as int] == tuples@[i as int]@);
        let key = pick_values(&tuples[i], at);
        add_to_groups(&mut groups, key, tuples[i].clone());
        i = i + 1;
    }
    groups
}

// ---- HAVING --------------------------------------------------------------------------

/// The columns that a list of names finds in a schema, in the order of the
/// names.
pub open spec fn found_columns(names: Seq<Seq<char>>, schema: SchemaModel, n: int) -> Seq<
    ColumnModel,
>
    decreases n,
{
    if n <= 0 || n > names.len() {
        Seq::empty()
    } else {
        let before = found_columns(names, schema, n - 1);
        match schema.position(names[n - 1]) {
            Some(i) => before.push(schema.columns[i]),
            None => before,
        }
    }
}

/// The type of an aggregate's values.
pub open spec fn value_type(function: AggregateFn) -> DataType {
    if function == AggregateFn::Count {
        DataType::Integer
    } else {
        DataType::Float
    }
}

/// The column in which the value of an aggregate call stands.
pub open spec fn call_column(call: Call, i: int) -> ColumnModel {
    ColumnModel {
        id: 0,
        name: stand_in(i),
        data_type: value_type(call.function),
        nullable: true,
        primary_key: false,
    }
}

/// The schema of what `HAVING` judges: the grouping columns, then a column for
/// each aggregate call.
pub open spec fn having_schema(
    schema: SchemaModel,
    group_by: Seq<Seq<char>>,
    calls: Seq<Call>,
) -> SchemaModel {
    SchemaModel {
        columns: found_columns(group_by, schema, group_by.len() as int) + Seq::new(
            calls.len(),
            |i: int| call_column(calls[i], i),
        ),
        ..schema
    }
}

/// A `HAVING` clause read: the predicate, and the aggregate calls in it.
pub struct HavingModel {
    pub predicate: Expr,
    pub calls: Seq<Call>,
}

/// What a `HAVING` clause says.
pub open spec fn having_of(
    text: Seq<char>,
    schema: SchemaModel,
    group_by: Seq<Seq<char>>,
    fl: FloatModel,
) -> Result<HavingModel, Fault> {
    let x = extracted(text);
    match predicate_of(x.text, having_schema(schema, group_by, x.calls), fl) {
        Some(predicate) => Ok(HavingModel { predicate, calls: x.calls }),
        None => Err(execution_fault("Unsupported HAVING clause: '"@ + text + "'"@)),
    }
}

/// The values of aggregate calls over a group.
pub open spec fn call_values(
    calls: Seq<Call>,
    schema: SchemaModel,
    input: Seq<Seq<Datum>>,
    fl: FloatModel,
) -> Seq<Datum> {
    calls.map_values(|c: Call| aggregated(c, schema, input, fl))
}

/// Whether a `HAVING` clause keeps a group.
pub open spec fn keeps_group(
    having: Option<HavingModel>,
    group: GroupModel,
    schema: SchemaModel,
    fl: FloatModel,
) -> bool {
    match having {
        None => true,
        Some(h) => keeps(
            h.predicate,
            group.key + call_values(h.calls, schema, group.rows, fl),
            fl,
        ) == Some(true),
    }
}

/// A `HAVING` clause read, to be applied to many groups.
struct Having {
    predicate: CompiledPredicate,
    calls: Vec<(String, AggregateFn, Option<String>)>,
}

spec fn having_model(h: Option<Having>) -> Option<HavingModel> {
    match h {
        Some(x) => Some(
            HavingModel { predicate: x.predicate.model(), calls: call_models(x.calls@) },
        ),
        None => None,
    }
}

fn read_having<F: Floats>(
    text: &str,
    schema: &TableSchema,
    group_by: &Vec<String>,
    floats: &F,
) -> (r: Result<Having, DatabaseError>)
    requires
        floats.sound(),
    ensures
        match having_of(text@, schema@, texts(group_by@), floats.model()) {
            Ok(h) => r matches Ok(x) && having_model(Some(x)) == Some(h),
            Err(f) => r matches Err(e) && e@ == f,
        },
{
    let (rewritten, calls) = extract_calls(text);
    let ghost names = texts(group_by@);
    let ghost cs = call_models(calls@);
    let mut synth = TableSchema::new(schema.table_id, schema.name.clone());
    let mut i: usize = 0;
    while i < group_by.len()
        invariant
            i <= group_by@.len(),
            names == texts(group_by@),
            synth@ == (SchemaModel {
                columns: found_columns(names, schema@, i as int),
                ..schema@
            }),
        decreases group_by@.len() - i,
    {
        assert(names[i as int] == group_by@[i as int]@);
        match schema.position(group_by[i].as_str()) {
            Some(p) => {
                synth.add_column(schema.columns[p].clone());
            },
            None => {},
        }
        i = i + 1;
    }
    let ghost found = synth@.columns;
    let mut j: usize = 0;
    assert(found + Seq::<ColumnModel>::empty() == found);
    while j < calls.len()
        invariant
            j <= calls@.len(),
            cs == call_models(calls@),
            named_in_order(calls@),
            synth@ == (SchemaModel {
                columns: found + Seq::new(j as nat, |k: int| call_column(cs[k], k)),
                ..schema@
            }),
        decreases calls@.len() - j,
    {
        let ghost before = synth@.columns;
        let data_type = if calls[j].1 == AggregateFn::Count {
            DataType::Integer
        } else {
            DataType::Float
        };
        synth.add_column(
            Column {
                id: 0,
                name: calls[j].0.clone(),
                data_type,
                nullable: true,
                primary_key: false,
            },
        );
        proof {
            assert(calls@[j as int].0@ == stand_in(j as int));
            assert(cs[j as int].function == calls@[j as int].1);
            assert(synth@.columns == before.push(call_column(cs[j as int], j as int)));
            assert(synth@.columns == found + Seq::new(
                (j + 1) as nat,
                |k: int| call_column(cs[k], k),
            ));
        }
        j = j + 1;
    }
    assert(synth@ == having_schema(schema@, names, cs));
    match CompiledPredicate::compile(rewritten.as_str(), &synth, floats) {
        Some(predicate) => Ok(Having { predicate, calls }),
        None => Err(execution_error("Unsupported HAVING clause: '", text, "'")),
    }
}

fn group_passes<F: Floats>(having: &Option<Having>, group: &Group, schema: &TableSchema, floats: &F) -> (r:
    bool)
    requires
        floats.sound(),
    ensures
        r == keeps_group(having_model(*having), group@, schema@, floats.model()),
{
    match having {
        None => true,
        Some(h) => {
            let ghost fl = floats.model();
            let ghost cs = call_models(h.calls@);
            let mut values = copy_values(&group.key);
            let mut i: usize = 0;
            assert(data(values@) + Seq::<Datum>::empty() == data(values@));
            while i < h.calls.len()
                invariant
                    i <= h.calls@.len(),
                    floats.sound(),
                    fl == floats.model(),
                    cs == call_models(h.calls@),
                    data(values@) == group@.key + call_values(
                        cs.take(i as int),
                        schema@,
                        group@.rows,
                        fl,
                    ),
                decreases h.calls@.len() - i,
            {
                let ghost before = data(values@);
                let (name, function, argument) = &h.calls[i];
                let arg = match argument {
                    Some(a) => Some(a.as_str()),
                    None => None,
                };
                let v = compute_aggregate(
                    *function,
                    arg,
                    schema,
                    group.tuples.as_slice(),
                    floats,
                );
                proof {
                    assert(optional_str(arg) == optional_text(*argument));
                    assert(v@ == aggregated(cs[i as int], schema@, group@.rows, fl));
                }
                values.push(v);
                proof {
                    assert(data(values@) == before.push(v@));
                    assert(call_values(cs.take(i + 1), schema@, group@.rows, fl) == call_values(
                        cs.take(i as int),
                        schema@,
                        group@.rows,
                        fl,
                    ).push(v@));
                    assert(data(values@) == group@.key + call_values(
                        cs.take(i + 1),
                        schema@,
                        group@.rows,
                        fl,
                    ));
                }
                i = i + 1;
            }
            assert(cs.take(i as int) == cs);
            let row = Tuple { values };
            match h.predicate.eval(&row, floats) {
                Some(b) => b,
                None => false,
            }
        },
    }
}

// ---- output rows ------------------------------------------------------------------------

/// The place of the first text equal to `t`, at `from` or after it.
pub open spec fn text_from(v: Seq<Seq<char>>, t: Seq<char>, from: int) -> Option<int>
    decreases v.len() - from,
{
    if from < 0 || from >= v.len() {
        None
    } else if v[from] == t {
        Some(from)
    } else {
        text_from(v, t, from + 1)
    }
}

/// The place of the first text equal to `t`.
pub fn find_text(v: &Vec<String>, t: &str) -> (r: Option<usize>)
    ensures
        match r {
            Some(i) => text_from(texts(v@), t@, 0) == Some(i as int) && i < v@.len(),
            None => text_from(texts(v@), t@, 0) is None,
        },
{
    let ghost all = texts(v@);
    let mut i: usize = 0;
    while i < v.len()
        invariant
            i <= v@.len(),
            all == texts(v@),
            text_from(all, t@, 0) == text_from(all, t@, i as int),
        decreases v@.len() - i,
    {
        assert(all[i as int] == v@[i as int]@);
        if same(v[i].as_str(), t) {
            return Some(i);
        }
        i = i + 1;
    }
    None
}

/// What one output column is of a group: the key's value where the column is a
/// grouping column, else the aggregate that it calls.
pub open spec fn output_value(
    column: Seq<char>,
    group_by: Seq<Seq<char>>,
    group: GroupModel,
    schema: SchemaModel,
    fl: FloatModel,
) -> Result<Datum, Fault> {
    match text_from(group_by, column, 0) {
        Some(i) => Ok(group.key[i]),
        None => match aggregate_call(column) {
            Some(call) => Ok(aggregated(call, schema, group.rows, fl)),
            None => Err(execution_fault("Not a recognized aggregate: '"@ + column + "'"@)),
        },
    }
}

/// The output row of a group, from column `i` on, behind `done`.
pub open spec fn output_from(
    columns: Seq<Seq<char>>,
    i: int,
    done: Seq<Datum>,
    group_by: Seq<Seq<char>>,
    group: GroupModel,
    schema: SchemaModel,
    fl: FloatModel,
) -> Result<Seq<Datum>, Fault>
    decreases columns.len() - i,
{
    if i < 0 || i >= columns.len() {
        Ok(done)
    } else {
        match output_value(columns[i], group_by, group, schema, fl) {
            Ok(d) => output_from(columns, i + 1, done.push(d), group_by, group, schema, fl),
            Err(f) => Err(f),
        }
    }
}

/// The output rows of the groups from number `i` on that `HAVING` keeps,
/// behind `done`.
pub open spec fn outputs_from(
    groups: Seq<GroupModel>,
    i: int,
    done: Seq<Seq<Datum>>,
    columns: Seq<Seq<char>>,
    group_by: Seq<Seq<char>>,
    having: Option<HavingModel>,
    schema: SchemaModel,
    fl: FloatModel,
) -> Result<Seq<Seq<Datum>>, Fault>
    decreases groups.len() - i,
{
    if i < 0 || i >= groups.len() {
        Ok(done)
    } else if !keeps_group(having, groups[i], schema, fl) {
        outputs_from(groups, i + 1, done, columns, group_by, having, schema, fl)
    } else {
        match output_from(columns, 0, Seq::empty(), group_by, groups[i], schema, fl) {
            Ok(row) => outputs_from(
                groups,
                i + 1,
                done.push(row),
                columns,
                group_by,
                having,
                schema,
                fl,
            ),
            Err(f) => Err(f),
        }
    }
}

/// The column that an output column is. One that is no grouping column holds the
/// value of an aggregate call, and has no name.
pub open spec fn output_column(
    column: Seq<char>,
    group_by: Seq<Seq<char>>,
    schema: SchemaModel,
) -> ColumnModel {
    match (text_from(group_by, column, 0), schema.position(column)) {
        (Some(_), Some(p)) => schema.columns[p],
        _ => ColumnModel {
            id: 0,
            name: Seq::empty(),
            data_type: match aggregate_call(column) {
                Some(call) => value_type(call.function),
                None => DataType::Float,
            },
            nullable: true,
            primary_key: false,
        },
    }
}

/// The schema of what grouping yields.
pub open spec fn output_schema(
    columns: Seq<Seq<char>>,
    group_by: Seq<Seq<char>>,
    schema: SchemaModel,
) -> SchemaModel {
    SchemaModel {
        columns: Seq::new(
            columns.len(),
            |i: int| output_column(columns[i], group_by, schema),
        ),
        ..schema
    }
}

/// A relation grouped and aggregated. Its columns are the output columns, of which
/// the grouping columns keep their names.
pub open spec fn aggregated_relation(
    input: RelationModel,
    columns: Seq<Seq<char>>,
    group_by: Seq<Seq<char>>,
    having: Option<Seq<char>>,
    fl: FloatModel,
) -> Result<RelationModel, Fault> {
    match resolved(group_by, 0, input.schema, "Unknown GROUP BY column '"@, "'"@) {
        Err(f) => Err(f),
        Ok(at) => if at.len() > 0 && !all_within(input.rows, at) {
            Err(short_row())
        } else {
            let h = match having {
                None => Ok(None),
                Some(text) => match having_of(text, input.schema, group_by, fl) {
                    Ok(x) => Ok(Some(x)),
                    Err(f) => Err(f),
                },
            };
            match h {
                Err(f) => Err(f),
                Ok(hm) => match outputs_from(
                    groups_of(input.rows, at),
                    0,
                    Seq::empty(),
                    columns,
                    group_by,
                    hm,
                    input.schema,
                    fl,
                ) {
                    Ok(out) => Ok(
                        RelationModel {
                            schema: output_schema(columns, group_by, input.schema),
                            rows: out,
                        },
                    ),
                    Err(f) => Err(f),
                },
            }
        },
    }
}

fn output_row<F: Floats>(
    columns: &Vec<String>,
    group_by: &Vec<String>,
    group: &Group,
    schema: &TableSchema,
    floats: &F,
) -> (r: Result<Tuple, DatabaseError>)
    requires
        floats.sound(),
        group.key@.len() == group_by@.len(),
    ensures
        match output_from(
            texts(columns@),
            0,
            Seq::empty(),
            texts(group_by@),
            group@,
            schema@,
            floats.model(),
        ) {
            Ok(row) => r matches Ok(t) && t@ == row,
            Err(f) => r matches Err(e) && e@ == f,
        },
{
    let ghost cols = texts(columns@);
    let ghost names = texts(group_by@);
    let ghost fl = floats.model();
    let mut values: Vec<Value> = Vec::new();
    let mut i: usize = 0;
    assert(data(values@) == Seq::<Datum>::empty());
    while i < columns.len()
        invariant
            i <= columns@.len(),
            floats.sound(),
            fl == floats.model(),
            cols == texts(columns@),
            names == texts(group_by@),
            group.key@.len() == group_by@.len(),
            output_from(cols, 0, Seq::empty(), names, group@, schema@, fl) == output_from(
                cols,
                i as int,
                data(values@),
                names,
                group@,
                schema@,
                fl,
            ),
        decreases columns@.len() - i,
    {
        assert(cols[i as int] == columns@[i as int]@);
        let ghost before = data(values@);
        match find_text(group_by, columns[i].as_str()) {
            Some(p) => {
                values.push(group.key[p].clone());
                assert(data(values@) == before.push(group@.key[p as int]));
            },
            None => match parse_aggregate(columns[i].as_str()) {
                Some((function, argument)) => {
                    let arg = match &argument {
                        Some(a) => Some(a.as_str()),
                        None => None,
                    };
                    let v = compute_aggregate(
                        function,
                        arg,
                        schema,
                        group.tuples.as_slice(),
                        floats,
                    );
                    assert(optional_str(arg) == optional_text(argument));
                    values.push(v);
                    assert(data(values@) == before.push(v@));
                },
                None => {
                    return Err(
                        execution_error(
                            "Not a recognized aggregate: '",
                            columns[i].as_str(),
                            "'",
                        ),
                    );
                },
            },
        }
        i = i + 1;
    }
    Ok(Tuple { values })
}

proof fn lemma_output_values(
    columns: Seq<Seq<char>>,
    i: int,
    done: Seq<Datum>,
    group_by: Seq<Seq<char>>,
    group: GroupModel,
    schema: SchemaModel,
    fl: FloatModel,
)
    requires
        0 <= i <= columns.len(),
        done.len() == i,
        forall|c: int|
            0 <= c < i ==> output_value(#[trigger] columns[c], group_by, group, schema, fl) == Ok::<
                Datum,
                Fault,
            >(done[c]),
    ensures
        output_from(columns, i, done, group_by, group, schema, fl) matches Ok(row) ==> {
            &&& row.len() == columns.len()
            &&& forall|c: int|
                0 <= c < columns.len() ==> output_value(
                    #[trigger] columns[c],
                    group_by,
                    group,
                    schema,
                    fl,
                ) == Ok::<Datum, Fault>(row[c])
        },
    decreases columns.len() - i,
{
    if i < columns.len() {
        if let Ok(d) = output_value(columns[i], group_by, group, schema, fl) {
            lemma_output_values(columns, i + 1, done.push(d), group_by, group, schema, fl);
        }
    }
}

/// Grouping puts the value of a grouping column under the column's name: what sorts by
/// that name sorts the groups by their keys.
pub proof fn keys_stand_under_their_names(
    columns: Seq<Seq<char>>,
    group_by: Seq<Seq<char>>,
    group: GroupModel,
    schema: SchemaModel,
    fl: FloatModel,
    name: Seq<char>,
    g: int,
)
    requires
        output_from(columns, 0, Seq::empty(), group_by, group, schema, fl) is Ok,
        columns.contains(name),
        name.len() > 0,
        text_from(group_by, name, 0) == Some(g),
        schema.position(name) is Some,
    ensures
        ({
            let row = output_from(columns, 0, Seq::empty(), group_by, group, schema, fl)->Ok_0;
            match output_schema(columns, group_by, schema).position(name) {
                Some(p) => 0 <= p < row.len() && columns[p] == name && row[p] == group.key[g],
                None => false,
            }
        }),
{
    let out = output_schema(columns, group_by, schema);
    lemma_output_values(columns, 0, Seq::empty(), group_by, group, schema, fl);
    let c = choose|c: int| 0 <= c < columns.len() && columns[c] == name;
    column_place(schema.columns, name, 0);
    column_place(out.columns, name, 0);
    assert(out.columns[c].name == name);
    let p = out.position(name)->0;
    column_place(schema.columns, columns[p], 0);
    assert(out.columns[p] == output_column(columns[p], group_by, schema));
}

proof fn lemma_group_keys(input: Seq<Seq<Datum>>, at: Seq<int>, n: int)
    requires
        0 <= n <= input.len(),
    ensures
        forall|g: int|
            0 <= g < grouped(input, at, n).len() ==> (#[trigger] grouped(input, at, n)[g]).key.len()
                == at.len(),
    decreases n,
{
    if n > 0 {
        lemma_group_keys(input, at, n - 1);
        let before = grouped(input, at, n - 1);
        let key = picked(input[n - 1], at);
        group_place(before, key, 0);
    }
}

/// A place that `group_from` finds is a group.
pub proof fn group_place(groups: Seq<GroupModel>, key: Seq<Datum>, from: int)
    requires
        0 <= from,
    ensures
        match group_from(groups, key, from) {
            Some(g) => from <= g < groups.len() && same_key(groups[g].key, key),
            None => forall|g: int|
                from <= g < groups.len() ==> !same_key((#[trigger] groups[g]).key, key),
        },
    decreases groups.len() - from,
{
    if from < groups.len() && !same_key(groups[from].key, key) {
        group_place(groups, key, from + 1);
    }
}

fn output_rows<F: Floats>(
    groups: &Vec<Group>,
    columns: &Vec<String>,
    group_by: &Vec<String>,
    having: &Option<Having>,
    schema: &TableSchema,
    floats: &F,
) -> (r: Result<Vec<Tuple>, DatabaseError>)
    requires
        floats.sound(),
        forall|g: int|
            0 <= g < groups@.len() ==> (#[trigger] groups@[g]).key@.len() == group_by@.len(),
    ensures
        match outputs_from(
            group_models(groups@),
            0,
            Seq::empty(),
            texts(columns@),
            texts(group_by@),
            having_model(*having),
            schema@,
            floats.model(),
        ) {
            Ok(out) => r matches Ok(t) && rows(t@) == out,
            Err(f) => r matches Err(e) && e@ == f,
        },
{
    let ghost fl = floats.model();
    let ghost gs = group_models(groups@);
    let ghost hm = having_model(*having);
    let ghost cols = texts(columns@);
    let ghost names = texts(group_by@);
    let mut out: Vec<Tuple> = Vec::new();
    let mut i: usize = 0;
    assert(rows(out@) == Seq::<Seq<Datum>>::empty());
    while i < groups.len()
        invariant
            i <= groups@.len(),
            floats.sound(),
            fl == floats.model(),
            gs == group_models(groups@),
            hm == having_model(*having),
            cols == texts(columns@),
            names == texts(group_by@),
            forall|g: int|
                0 <= g < groups@.len() ==> (#[trigger] groups@[g]).key@.len() == group_by@.len(),
            outputs_from(gs, 0, Seq::empty(), cols, names, hm, schema@, fl) == outputs_from(
                gs,
                i as int,
                rows(out@),
                cols,
                names,
                hm,
                schema@,
                fl,
            ),
        decreases groups@.len() - i,
    {
        assert(gs[i as int] == groups@[i as int]@);
        if group_passes(having, &groups[i], schema, floats) {
            match output_row(columns, group_by, &groups[i], schema, floats) {
                Ok(row) => {
                    let ghost before = rows(out@);
                    out.push(row);
                    assert(rows(out@) == before.push(row@));
                },
                Err(e) => {
                    return Err(e);
                },
            }
        }
        i = i + 1;
    }
    Ok(out)
}

fn describe_output(column: &String, group_by: &Vec<String>, schema: &TableSchema) -> (r: Column)
    ensures
        r@ == output_column(column@, texts(group_by@), schema@),
{
    match (find_text(group_by, column.as_str()), schema.position(column.as_str())) {
        (Some(_), Some(p)) => schema.columns[p].clone(),
        _ => Column {
            id: 0,
            name: String::new(),
            data_type: match parse_aggregate(column.as_str()) {
                Some((AggregateFn::Count, _)) => DataType::Integer,
                _ => DataType::Float,
            },
            nullable: true,
            primary_key: false,
        },
    }
}

fn describe_outputs(columns: &Vec<String>, group_by: &Vec<String>, schema: &TableSchema) -> (r:
    TableSchema)
    ensures
        r@ == output_schema(texts(columns@), texts(group_by@), schema@),
{
    let ghost whole = output_schema(texts(columns@), texts(group_by@), schema@);
    let mut out: Vec<Column> = Vec::new();
    let mut i: usize = 0;
    while i < columns.len()
        invariant
            i <= columns@.len(),
            whole == output_schema(texts(columns@), texts(group_by@), schema@),
            out@.len() == i,
            forall|k: int| 0 <= k < i ==> (#[trigger] out@[k])@ == whole.columns[k],
        decreases columns@.len() - i,
    {
        assert(texts(columns@)[i as int] == columns@[i as int]@);
        out.push(describe_output(&columns[i], group_by, schema));
        i = i + 1;
    }
    assert(column_models(out@) =~= whole.columns);
    TableSchema { table_id: schema.table_id, name: schema.name.clone(), columns: out }
}

/// Groups a relation and aggregates its groups.
pub fn apply_aggregate<F: Floats>(
    input: Relation,
    columns: &Vec<String>,
    group_by: &Vec<String>,
    having: Option<&str>,
    floats: &F,
) -> (r: Result<Relation, DatabaseError>)
    requires
        floats.sound(),
    ensures
        relation_result(r) == aggregated_relation(
            input@,
            texts(columns@),
            texts(group_by@),
            optional_str(having),
            floats.model(),
        ),
{
    let ghost whole = input@;
    let ghost fl = floats.model();
    let at = match resolve_columns(group_by, &input.schema, "Unknown GROUP BY column '", "'") {
        Ok(at) => at,
        Err(e) => {
            return Err(e);
        },
    };
    let ghost ps = as_ints(at@);
    if at.len() > 0 && !rows_reach(&input.tuples, &at) {
        return Err(short_row_error());
    }
    let schema = input.schema;
    let h = match having {
        Some(text) => match read_having(text, &schema, group_by, floats) {
            Ok(x) => Some(x),
            Err(e) => {
                return Err(e);
            },
        },
        None => None,
    };
    let groups = group_rows(input.tuples, &at);
    let ghost gs = group_models(groups@);
    proof {
        lemma_group_keys(whole.rows, ps, whole.rows.len() as int);
        assert(gs == groups_of(whole.rows, ps));
        assert forall|g: int| 0 <= g < groups@.len() implies (#[trigger] groups@[g]).key@.len()
            == group_by@.len() by {
            assert(gs[g] == groups@[g]@);
            assert(gs[g].key.len() == ps.len());
        }
    }
    match output_rows(&groups, columns, group_by, &h, &schema, floats) {
        Ok(tuples) => Ok(
            Relation { schema: describe_outputs(columns, group_by, &schema), tuples },
        ),
        Err(e) => Err(e),
    }
}

/// Grouping loses no row and invents none: together the groups hold as many
/// rows as came.
pub proof fn groups_hold_every_row(input: Seq<Seq<Datum>>, at: Seq<int>, n: int)
    requires
        0 <= n <= input.len(),
    ensures
        row_count(grouped(input, at, n), grouped(input, at, n).len() as int) == n,
    decreases n,
{
    if n > 0 {
        groups_hold_every_row(input, at, n - 1);
        let before = grouped(input, at, n - 1);
        let after = grouped(input, at, n);
        let key = picked(input[n - 1], at);
        group_place(before, key, 0);
        match group_from(before, key, 0) {
            Some(g) => {
                lemma_count_update(before, after, g, before.len() as int);
            },
            None => {
                lemma_count_prefix(before, after, before.len() as int);
            },
        }
    }
}

/// The rows in the first `n` groups.
pub open spec fn row_count(groups: Seq<GroupModel>, n: int) -> int
    decreases n,
{
    if n <= 0 || n > groups.len() {
        0
    } else {
        row_count(groups, n - 1) + groups[n - 1].rows.len()
    }
}

proof fn lemma_count_prefix(a: Seq<GroupModel>, b: Seq<GroupModel>, n: int)
    requires
        0 <= n <= a.len() <= b.len(),
        forall|i: int| 0 <= i < n ==> (#[trigger] a[i]) == b[i],
    ensures
        row_count(a, n) == row_count(b, n),
    decreases n,
{
    if n > 0 {
        lemma_count_prefix(a, b, n - 1);
        assert(a[n - 1] == b[n - 1]);
    }
}

proof fn lemma_count_update(a: Seq<GroupModel>, b: Seq<GroupModel>, g: int, n: int)
    requires
        0 <= g < a.len(),
        a.len() == b.len(),
        0 <= n <= a.len(),
        b[g].rows.len() == a[g].rows.len() + 1,
        forall|i: int| 0 <= i < a.len() && i != g ==> (#[trigger] a[i]) == b[i],
    ensures
        row_count(b, n) == row_count(a, n) + (if g < n { 1int } else { 0int }),
    decreases n,
{
    if n > 0 {
        lemma_count_update(a, b, g, n - 1);
        if n - 1 != g {
            assert(a[n - 1] == b[n - 1]);
        }
    }
}

} // verus!
