//! What a join compares: the merged schema, and the condition that `ON`,
//! `USING` or `NATURAL` stands for.

use vstd::prelude::*;
use crate::error::{DatabaseError, Fault};
use crate::execution::aggregate::optional_str;
use crate::execution::catalog::{Column, ColumnModel, SchemaModel, TableSchema};
use crate::execution::join::{
    by_left, condition_matcher, hash_join, hash_joined, nested_loop_join, unmatched,
};
use crate::execution::operators::{rows, Datum, Tuple};
use crate::execution::relation::{
    execution_error, execution_fault, relation_result, short_row, short_row_error, Relation,
    RelationModel,
};
use crate::execution::row_codec::predicate::{predicate_of, CompiledPredicate};
use crate::execution::row_codec::tokens::{split_comparison, tokens_of};
use crate::execution::secondary_index::{rank_of, variant_rank};
use crate::float::{FloatModel, Floats};
use crate::sql::parser::{equi_model, EquiMatch, EquiModel, JoinKind};
use crate::text::{chars_of, decimal, join3, join5, same, slice_text, texts, unsigned_to_text};

verus! {

// ---- the merged schema -------------------------------------------------------------

/// A column's name behind a qualifier, where there is one.
pub open spec fn qualified(prefix: Option<Seq<char>>, name: Seq<char>) -> Seq<char> {
    match prefix {
        Some(p) => p + "."@ + name,
        None => name,
    }
}

/// A column of a joined row: numbered anew, renamed, and no longer a key.
pub open spec fn merged_column(c: ColumnModel, number: int, name: Seq<char>) -> ColumnModel {
    ColumnModel {
        id: number as u32,
        name,
        data_type: c.data_type,
        nullable: c.nullable,
        primary_key: false,
    }
}

/// The columns of a joined row: those of the left side, then those of the
/// right side, each behind its side's qualifier.
pub open spec fn merged_columns(
    left: Seq<ColumnModel>,
    left_prefix: Option<Seq<char>>,
    right: Seq<ColumnModel>,
    right_prefix: Seq<char>,
) -> Seq<ColumnModel> {
    Seq::new(
        left.len() + right.len(),
        |i: int|
            if i < left.len() {
                merged_column(left[i], i + 1, qualified(left_prefix, left[i].name))
            } else {
                merged_column(
                    right[i - left.len()],
                    i + 1,
                    qualified(Some(right_prefix), right[i - left.len()].name),
                )
            },
    )
}

/// The schema of a joined row.
pub open spec fn merged_schema(
    left: SchemaModel,
    left_prefix: Option<Seq<char>>,
    right: SchemaModel,
    right_prefix: Seq<char>,
) -> SchemaModel {
    SchemaModel {
        table_id: 0,
        name: left.name + "_"@ + right.name,
        columns: merged_columns(left.columns, left_prefix, right.columns, right_prefix),
    }
}

fn qualify(prefix: Option<&str>, name: &str) -> (r: String)
    ensures
        r@ == qualified(optional_str(prefix), name@),
{
    match prefix {
        Some(p) => join3(p, ".", name),
        None => name.to_owned(),
    }
}

/// The schema of a joined row.
pub fn merge_schemas(
    left: &TableSchema,
    left_prefix: Option<&str>,
    right: &TableSchema,
    right_prefix: &str,
) -> (r: TableSchema)
    requires
        left.columns@.len() + right.columns@.len() < u32::MAX,
    ensures
        r@ == merged_schema(left@, optional_str(left_prefix), right@, right_prefix@),
        r.columns@.len() == left.columns@.len() + right.columns@.len(),
{
    let ghost whole = merged_columns(
        left@.columns,
        optional_str(left_prefix),
        right@.columns,
        right_prefix@,
    );
    let mut merged = TableSchema::new(0, join3(left.name.as_str(), "_", right.name.as_str()));
    let mut i: usize = 0;
    assert(whole.take(0) == Seq::<ColumnModel>::empty());
    while i < left.columns.len()
        invariant
            i <= left.columns@.len(),
            left.columns@.len() + right.columns@.len() < u32::MAX,
            whole == merged_columns(
                left@.columns,
                optional_str(left_prefix),
                right@.columns,
                right_prefix@,
            ),
            merged@ == (SchemaModel {
                table_id: 0,
                name: left.name@ + "_"@ + right.name@,
                columns: whole.take(i as int),
            }),
            merged.columns@.len() == i,
        decreases left.columns@.len() - i,
    {
        let c = &left.columns[i];
        merged.add_column(
            Column {
                id: (i + 1) as u32,
                name: qualify(left_prefix, c.name.as_str()),
                data_type: c.data_type,
                nullable: c.nullable,
                primary_key: false,
            },
        );
        assert(merged@.columns == whole.take(i + 1));
        i = i + 1;
    }
    let mut j: usize = 0;
    while j < right.columns.len()
        invariant
            j <= right.columns@.len(),
            left.columns@.len() + right.columns@.len() < u32::MAX,
            whole == merged_columns(
                left@.columns,
                optional_str(left_prefix),
                right@.columns,
                right_prefix@,
            ),
            merged@ == (SchemaModel {
                table_id: 0,
                name: left.name@ + "_"@ + right.name@,
                columns: whole.take(left.columns@.len() + j),
            }),
            merged.columns@.len() == left.columns@.len() + j,
        decreases right.columns@.len() - j,
    {
        let c = &right.columns[j];
        let number: usize = left.columns.len() + j + 1;
        merged.add_column(
            Column {
                id: number as u32,
                name: qualify(Some(right_prefix), c.name.as_str()),
                data_type: c.data_type,
                nullable: c.nullable,
                primary_key: false,
            },
        );
        assert(merged@.columns == whole.take(left.columns@.len() + j + 1));
        j = j + 1;
    }
    assert(whole.take(whole.len() as int) == whole);
    merged
}

// ---- USING and NATURAL ---------------------------------------------------------------

/// The place after the last `.` before `n`, or the start.
pub open spec fn base_start(s: Seq<char>, n: int) -> int
    decreases n,
{
    if n <= 0 || n > s.len() {
        0
    } else if s[n - 1] == '.' {
        n
    } else {
        base_start(s, n - 1)
    }
}

/// A column's own name, without a qualifier.
pub open spec fn base_name(s: Seq<char>) -> Seq<char> {
    s.skip(base_start(s, s.len() as int))
}

/// A column's own name, without a qualifier.
pub fn base_column_name(name: &str) -> (r: String)
    ensures
        r@ == base_name(name@),
{
    let v = chars_of(name);
    let mut n: usize = v.len();
    while n > 0 && v[n - 1] != '.'
        invariant
            n <= v@.len(),
            v@ == name@,
            base_start(name@, name@.len() as int) == base_start(name@, n as int),
        decreases n,
    {
        n = n - 1;
    }
    let r = slice_text(&v, n, v.len());
    assert(r@ == name@.skip(n as int));
    r
}

/// The place of the first column, at `from` or after it, whose own name is
/// `name`.
pub open spec fn base_from(columns: Seq<ColumnModel>, name: Seq<char>, from: int) -> Option<int>
    decreases columns.len() - from,
{
    if from < 0 || from >= columns.len() {
        None
    } else if base_name(columns[from].name) == name {
        Some(from)
    } else {
        base_from(columns, name, from + 1)
    }
}

fn find_base(schema: &TableSchema, name: &str) -> (r: Option<usize>)
    ensures
        match r {
            Some(i) => base_from(schema@.columns, name@, 0) == Some(i as int) && i
                < schema.columns@.len(),
            None => base_from(schema@.columns, name@, 0) is None,
        },
{
    let mut i: usize = 0;
    while i < schema.columns.len()
        invariant
            i <= schema.columns@.len(),
            base_from(schema@.columns, name@, 0) == base_from(schema@.columns, name@, i as int),
        decreases schema.columns@.len() - i,
    {
        let base = base_column_name(schema.columns[i].name.as_str());
        if same(base.as_str(), name) {
            return Some(i);
        }
        i = i + 1;
    }
    None
}

/// The condition that compares two columns of a join.
pub open spec fn equality_text(
    left: Seq<char>,
    left_prefix: Option<Seq<char>>,
    right: Seq<char>,
    right_prefix: Seq<char>,
) -> Seq<char> {
    qualified(left_prefix, left) + " = "@ + qualified(Some(right_prefix), right)
}

fn equality(left: &Column, left_prefix: Option<&str>, right: &Column, right_prefix: &str) -> (r:
    String)
    ensures
        r@ == equality_text(left.name@, optional_str(left_prefix), right.name@, right_prefix@),
{
    let a = qualify(left_prefix, left.name.as_str());
    let b = qualify(Some(right_prefix), right.name.as_str());
    join3(a.as_str(), " = ", b.as_str())
}

/// The condition that `USING` stands for. It must name one column, which both
/// sides have.
pub open spec fn using_condition(
    cols: Seq<Seq<char>>,
    left: SchemaModel,
    left_prefix: Option<Seq<char>>,
    right: SchemaModel,
    right_prefix: Seq<char>,
    right_table: Seq<char>,
) -> Result<Seq<char>, Fault> {
    if cols.len() != 1 {
        Err(
            execution_fault(
                "JOIN ... USING with more than one column isn't supported yet (got "@ + decimal(
                    cols.len() as int,
                ) + "); use an explicit ON condition instead"@,
            ),
        )
    } else {
        match base_from(left.columns, cols[0], 0) {
            None => Err(
                execution_fault(
                    "USING column '"@ + cols[0] + "' not found on the left side of the join"@,
                ),
            ),
            Some(i) => match right.position(cols[0]) {
                None => Err(
                    execution_fault(
                        "USING column '"@ + cols[0] + "' not found in table '"@ + right_table
                            + "'"@,
                    ),
                ),
                Some(j) => Ok(
                    equality_text(
                        left.columns[i].name,
                        left_prefix,
                        right.columns[j].name,
                        right_prefix,
                    ),
                ),
            },
        }
    }
}

/// The condition that `USING` stands for.
pub fn resolve_using_condition(
    cols: &Vec<String>,
    left: &TableSchema,
    left_prefix: Option<&str>,
    right: &TableSchema,
    right_prefix: &str,
    right_table: &str,
) -> (r: Result<String, DatabaseError>)
    ensures
        match using_condition(
            texts(cols@),
            left@,
            optional_str(left_prefix),
            right@,
            right_prefix@,
            right_table@,
        ) {
            Ok(s) => r matches Ok(t) && t@ == s,
            Err(f) => r matches Err(e) && e@ == f,
        },
{
    assert(texts(cols@).len() == cols@.len());
    if cols.len() != 1 {
        let n = unsigned_to_text(cols.len() as u64);
        return Err(
            execution_error(
                "JOIN ... USING with more than one column isn't supported yet (got ",
                n.as_str(),
                "); use an explicit ON condition instead",
            ),
        );
    }
    assert(texts(cols@)[0] == cols@[0]@);
    let name = cols[0].as_str();
    let i = match find_base(left, name) {
        Some(i) => i,
        None => {
            return Err(
                execution_error(
                    "USING column '",
                    name,
                    "' not found on the left side of the join",
                ),
            );
        },
    };
    match right.position(name) {
        Some(j) => Ok(equality(&left.columns[i], left_prefix, &right.columns[j], right_prefix)),
        None => Err(
            DatabaseError::ExecutionError(
                join5("USING column '", name, "' not found in table '", right_table, "'"),
            ),
        ),
    }
}

/// The left and right places of the columns that both sides have, among the
/// first `n` left columns.
pub open spec fn shared_columns(left: Seq<ColumnModel>, right: SchemaModel, n: int) -> Seq<
    (int, int),
>
    decreases n,
{
    if n <= 0 || n > left.len() {
        Seq::empty()
    } else {
        let before = shared_columns(left, right, n - 1);
        match right.position(base_name(left[n - 1].name)) {
            Some(j) => before.push((n - 1, j)),
            None => before,
        }
    }
}

/// The condition that `NATURAL` stands for: none where the sides share no
/// column. They must not share more than one.
pub open spec fn natural_condition(
    left: SchemaModel,
    left_prefix: Option<Seq<char>>,
    right: SchemaModel,
    right_prefix: Seq<char>,
) -> Result<Option<Seq<char>>, Fault> {
    let shared = shared_columns(left.columns, right, left.columns.len() as int);
    if shared.len() == 0 {
        Ok(None)
    } else if shared.len() == 1 {
        Ok(
            Some(
                equality_text(
                    left.columns[shared[0].0].name,
                    left_prefix,
                    right.columns[shared[0].1].name,
                    right_prefix,
                ),
            ),
        )
    } else {
        Err(
            execution_fault(
                "NATURAL JOIN with more than one shared column isn't supported yet ("@ + decimal(
                    shared.len() as int,
                ) + " shared columns found); use an explicit ON condition instead"@,
            ),
        )
    }
}

/// The condition that `NATURAL` stands for.
pub fn resolve_natural_condition(
    left: &TableSchema,
    left_prefix: Option<&str>,
    right: &TableSchema,
    right_prefix: &str,
) -> (r: Result<Option<String>, DatabaseError>)
    ensures
        match natural_condition(left@, optional_str(left_prefix), right@, right_prefix@) {
            Ok(None) => r matches Ok(None),
            Ok(Some(s)) => r matches Ok(Some(t)) && t@ == s,
            Err(f) => r matches Err(e) && e@ == f,
        },
{
    let mut shared: Vec<(usize, usize)> = Vec::new();
    let mut i: usize = 0;
    while i < left.columns.len()
        invariant
            i <= left.columns@.len(),
            shared@.len() == shared_columns(left@.columns, right@, i as int).len(),
            forall|k: int|
                0 <= k < shared@.len() ==> {
                    &&& (#[trigger] shared@[k]).0 < left.columns@.len()
                    &&& shared@[k].1 < right.columns@.len()
                    &&& shared_columns(left@.columns, right@, i as int)[k] == (
                        shared@[k].0 as int,
                        shared@[k].1 as int,
                    )
                },
        decreases left.columns@.len() - i,
    {
        let base = base_column_name(left.columns[i].name.as_str());
        match right.position(base.as_str()) {
            Some(j) => {
                shared.push((i, j));
            },
            None => {},
        }
        i = i + 1;
    }
    if shared.len() == 0 {
        return Ok(None);
    }
    if shared.len() == 1 {
        let (a, b) = shared[0];
        return Ok(Some(equality(&left.columns[a], left_prefix, &right.columns[b], right_prefix)));
    }
    let n = unsigned_to_text(shared.len() as u64);
    Err(
        execution_error(
            "NATURAL JOIN with more than one shared column isn't supported yet (",
            n.as_str(),
            " shared columns found); use an explicit ON condition instead",
        ),
    )
}

// ---- the join ------------------------------------------------------------------------

/// How a join is written, as contracts speak of it.
pub enum JoinText {
    /// `ON` and a condition, or nothing.
    On(Option<Seq<char>>),
    /// `USING` and columns.
    Using(Seq<Seq<char>>),
    /// `NATURAL`.
    Natural,
}

/// How a join is written, from its clause.
pub open spec fn join_text(condition: Option<Seq<char>>, equi: Option<EquiModel>) -> JoinText {
    match equi {
        Some(EquiModel::Using(cols)) => JoinText::Using(cols),
        Some(EquiModel::Natural) => JoinText::Natural,
        None => JoinText::On(condition),
    }
}

/// The condition of a join, as `ON` would write it.
pub open spec fn join_condition(
    text: JoinText,
    left: SchemaModel,
    left_prefix: Option<Seq<char>>,
    right: SchemaModel,
    right_prefix: Seq<char>,
    right_table: Seq<char>,
) -> Result<Option<Seq<char>>, Fault> {
    match text {
        JoinText::On(c) => Ok(c),
        JoinText::Using(cols) => match using_condition(
            cols,
            left,
            left_prefix,
            right,
            right_prefix,
            right_table,
        ) {
            Ok(s) => Ok(Some(s)),
            Err(f) => Err(f),
        },
        JoinText::Natural => natural_condition(left, left_prefix, right, right_prefix),
    }
}

/// The keys of a condition that is an equality of one column of each side.
pub open spec fn equality_keys(op: Seq<char>, a: int, b: int, left_len: int) -> Option<(int, int)> {
    if op != "="@ {
        None
    } else if a < left_len && b >= left_len {
        Some((a, b - left_len))
    } else if b < left_len && a >= left_len {
        Some((b, a - left_len))
    } else {
        None
    }
}

/// Every row has place `i`.
pub open spec fn all_reach(v: Seq<Seq<Datum>>, i: int) -> bool {
    forall|k: int| 0 <= k < v.len() ==> i < (#[trigger] v[k]).len()
}

/// Rows joined by trying every two.
pub open spec fn loop_joined(
    condition: Option<Seq<char>>,
    left: RelationModel,
    right: RelationModel,
    merged: SchemaModel,
    kind: JoinKind,
    fl: FloatModel,
) -> Result<RelationModel, Fault> {
    let left_cols = left.schema.columns.len() as int;
    let right_cols = right.schema.columns.len() as int;
    let e = match condition {
        Some(c) => predicate_of(c, merged, fl),
        None => None,
    };
    if condition is Some && e is None {
        Err(execution_fault("Unsupported JOIN condition: '"@ + condition->0 + "'"@))
    } else {
        let m = condition_matcher(e, left_cols, fl);
        Ok(
            RelationModel {
                schema: merged,
                rows: by_left(left.rows, right.rows, m, left.rows.len() as int) + unmatched(
                    kind,
                    left.rows,
                    right.rows,
                    m,
                    left_cols,
                    right_cols,
                ),
            },
        )
    }
}

/// The rank of the kind of the first value at a place that is not null, of the rows from
/// the `i`-th on; that of null where there is none.
pub open spec fn first_kind(rows: Seq<Seq<Datum>>, at: int, i: int) -> int
    decreases rows.len() - i,
{
    if 0 <= i < rows.len() {
        if rows[i][at] is Null {
            first_kind(rows, at, i + 1)
        } else {
            variant_rank(rows[i][at])
        }
    } else {
        0
    }
}

/// Whether the values at a place are null or of a kind.
pub open spec fn of_kind(rows: Seq<Seq<Datum>>, at: int, kind: int) -> bool {
    forall|i: int|
        0 <= i < rows.len() ==> (#[trigger] rows[i])[at] is Null || variant_rank(rows[i][at])
            == kind
}

/// Whether the keys of both sides of a join are all of one kind.
pub open spec fn keys_of_one_kind(
    l: Seq<Seq<Datum>>,
    left_key: int,
    r: Seq<Seq<Datum>>,
    right_key: int,
) -> bool {
    let first = first_kind(l, left_key, 0);
    let kind = if first == 0 { first_kind(r, right_key, 0) } else { first };
    of_kind(l, left_key, kind) && of_kind(r, right_key, kind)
}

/// Two relations joined under a condition. It must compare two columns of the
/// merged schema. An equality of one column of each side is joined by hashing, where
/// their values are all of one kind.
pub open spec fn joined_on(
    condition: Option<Seq<char>>,
    left: RelationModel,
    right: RelationModel,
    merged: SchemaModel,
    kind: JoinKind,
    fl: FloatModel,
) -> Result<RelationModel, Fault> {
    let left_cols = left.schema.columns.len() as int;
    let right_cols = right.schema.columns.len() as int;
    match condition {
        None => loop_joined(None, left, right, merged, kind, fl),
        Some(c) => {
            let t = tokens_of(c);
            if t.len() != 3 {
                Err(execution_fault("Unsupported JOIN condition: '"@ + c + "'"@))
            } else {
                match (merged.position(t[0]), merged.position(t[2])) {
                    (Some(a), Some(b)) => match equality_keys(t[1], a, b, left_cols) {
                        Some((lk, rk)) => if all_reach(left.rows, lk) && all_reach(
                            right.rows,
                            rk,
                        ) {
                            if keys_of_one_kind(left.rows, lk, right.rows, rk) {
                                Ok(
                                    RelationModel {
                                        schema: merged,
                                        rows: hash_joined(
                                            left.rows,
                                            lk,
                                            right.rows,
                                            rk,
                                            kind,
                                            left_cols,
                                            right_cols,
                                        ),
                                    },
                                )
                            } else {
                                loop_joined(Some(c), left, right, merged, kind, fl)
                            }
                        } else {
                            Err(short_row())
                        },
                        None => loop_joined(Some(c), left, right, merged, kind, fl),
                    },
                    _ => Err(
                        execution_fault(
                            "JOIN condition must compare two columns (e.g. 'a.id = b.a_id'), got: '"@
                                + c + "'"@,
                        ),
                    ),
                }
            }
        },
    }
}

/// The fault of a join whose rows would have more columns than can be
/// numbered.
pub open spec fn too_wide() -> Fault {
    execution_fault("Too many columns in a joined row"@)
}

/// Two relations joined. `left_prefix` qualifies the left columns where they
/// are those of a single table.
pub open spec fn joined(
    left: RelationModel,
    left_prefix: Option<Seq<char>>,
    right: RelationModel,
    right_prefix: Seq<char>,
    right_table: Seq<char>,
    text: JoinText,
    kind: JoinKind,
    fl: FloatModel,
) -> Result<RelationModel, Fault> {
    if left.schema.columns.len() + right.schema.columns.len() >= u32::MAX {
        Err(too_wide())
    } else {
        match join_condition(
            text,
            left.schema,
            left_prefix,
            right.schema,
            right_prefix,
            right_table,
        ) {
            Err(f) => Err(f),
            Ok(condition) => joined_on(
                condition,
                left,
                right,
                merged_schema(left.schema, left_prefix, right.schema, right_prefix),
                kind,
                fl,
            ),
        }
    }
}

fn rows_have(tuples: &Vec<Tuple>, at: usize) -> (r: bool)
    ensures
        r == all_reach(rows(tuples@), at as int),
{
    let ghost all = rows(tuples@);
    let mut i: usize = 0;
    while i < tuples.len()
        invariant
            i <= tuples@.len(),
            all == rows(tuples@),
            forall|k: int| 0 <= k < i ==> at < (#[trigger] all[k]).len(),
        decreases tuples@.len() - i,
    {
        assert(all[i as int] == tuples@[i as int]@);
        if at >= tuples[i].values.len() {
            assert(!(at < all[i as int].len()));
            return false;
        }
        i = i + 1;
    }
    true
}

fn find_kind(tuples: &Vec<Tuple>, at: usize) -> (r: i64)
    requires
        all_reach(rows(tuples@), at as int),
    ensures
        r == first_kind(rows(tuples@), at as int, 0),
{
    let ghost all = rows(tuples@);
    let mut i: usize = 0;
    while i < tuples.len()
        invariant
            i <= tuples@.len(),
            all == rows(tuples@),
            all_reach(all, at as int),
            first_kind(all, at as int, 0) == first_kind(all, at as int, i as int),
        decreases tuples@.len() - i,
    {
        assert(all[i as int] == tuples@[i as int]@);
        assert(at < all[i as int].len());
        let rank = rank_of(&tuples[i].values[at]);
        assert(rank == variant_rank(all[i as int][at as int]));
        if rank != 0 {
            return rank;
        }
        i = i + 1;
    }
    0
}

fn are_of_kind(tuples: &Vec<Tuple>, at: usize, kind: i64) -> (r: bool)
    requires
        all_reach(rows(tuples@), at as int),
    ensures
        r == of_kind(rows(tuples@), at as int, kind as int),
{
    let ghost all = rows(tuples@);
    let mut i: usize = 0;
    while i < tuples.len()
        invariant
            i <= tuples@.len(),
            all == rows(tuples@),
            all_reach(all, at as int),
            forall|k: int|
                0 <= k < i ==> (#[trigger] all[k])[at as int] is Null || variant_rank(
                    all[k][at as int],
                ) == kind,
        decreases tuples@.len() - i,
    {
        assert(all[i as int] == tuples@[i as int]@);
        assert(at < all[i as int].len());
        let rank = rank_of(&tuples[i].values[at]);
        assert(rank == variant_rank(all[i as int][at as int]));
        if rank != 0 && rank != kind {
            return false;
        }
        i = i + 1;
    }
    true
}

fn join_loop<F: Floats>(
    condition: Option<&str>,
    left: &Relation,
    right: &Relation,
    merged: TableSchema,
    kind: JoinKind,
    floats: &F,
) -> (r: Result<Relation, DatabaseError>)
    requires
        floats.sound(),
    ensures
        relation_result(r) == loop_joined(
            optional_str(condition),
            left@,
            right@,
            merged@,
            kind,
            floats.model(),
        ),
{
    let compiled = match condition {
        Some(c) => match CompiledPredicate::compile(c, &merged, floats) {
            Some(p) => Some(p),
            None => {
                return Err(execution_error("Unsupported JOIN condition: '", c, "'"));
            },
        },
        None => None,
    };
    let tuples = nested_loop_join(
        left.tuples.as_slice(),
        right.tuples.as_slice(),
        &compiled,
        kind,
        left.schema.columns.len(),
        right.schema.columns.len(),
        floats,
    );
    Ok(Relation { schema: merged, tuples })
}

fn join_on<F: Floats>(
    condition: Option<&str>,
    left: &Relation,
    right: &Relation,
    merged: TableSchema,
    kind: JoinKind,
    floats: &F,
) -> (r: Result<Relation, DatabaseError>)
    requires
        floats.sound(),
    ensures
        relation_result(r) == joined_on(
            optional_str(condition),
            left@,
            right@,
            merged@,
            kind,
            floats.model(),
        ),
{
    let c = match condition {
        Some(c) => c,
        None => {
            return join_loop(None, left, right, merged, kind, floats);
        },
    };
    let (left_tok, op, right_tok) = match split_comparison(c) {
        Some(t) => t,
        None => {
            return Err(execution_error("Unsupported JOIN condition: '", c, "'"));
        },
    };
    let (a, b) = match (merged.position(left_tok.as_str()), merged.position(right_tok.as_str())) {
        (Some(a), Some(b)) => (a, b),
        _ => {
            return Err(
                execution_error(
                    "JOIN condition must compare two columns (e.g. 'a.id = b.a_id'), got: '",
                    c,
                    "'",
                ),
            );
        },
    };
    let left_len: usize = left.schema.columns.len();
    let keys: Option<(usize, usize)> = if !same(op.as_str(), "=") {
        None
    } else if a < left_len && b >= left_len {
        Some((a, b - left_len))
    } else if b < left_len && a >= left_len {
        Some((b, a - left_len))
    } else {
        None
    };
    match keys {
        Some((lk, rk)) => {
            if !rows_have(&left.tuples, lk) || !rows_have(&right.tuples, rk) {
                return Err(short_row_error());
            }
            proof {
                assert forall|i: int| 0 <= i < left.tuples@.len() implies lk < (
                #[trigger] left.tuples@[i])@.len() by {
                    assert(rows(left.tuples@)[i] == left.tuples@[i]@);
                }
                assert forall|i: int| 0 <= i < right.tuples@.len() implies rk < (
                #[trigger] right.tuples@[i])@.len() by {
                    assert(rows(right.tuples@)[i] == right.tuples@[i]@);
                }
            }
            let first = find_kind(&left.tuples, lk);
            let one = if first == 0 { find_kind(&right.tuples, rk) } else { first };
            if !are_of_kind(&left.tuples, lk, one) || !are_of_kind(&right.tuples, rk, one) {
                return join_loop(Some(c), left, right, merged, kind, floats);
            }
            let tuples = hash_join(
                left.tuples.as_slice(),
                lk,
                right.tuples.as_slice(),
                rk,
                kind,
                left_len,
                right.schema.columns.len(),
            );
            Ok(Relation { schema: merged, tuples })
        },
        None => join_loop(Some(c), left, right, merged, kind, floats),
    }
}

/// Joins two relations.
pub fn apply_join<F: Floats>(
    left: &Relation,
    left_prefix: Option<&str>,
    right: &Relation,
    right_prefix: &str,
    right_table: &str,
    condition: Option<&str>,
    equi_match: &Option<EquiMatch>,
    kind: JoinKind,
    floats: &F,
) -> (r: Result<Relation, DatabaseError>)
    requires
        floats.sound(),
    ensures
        relation_result(r) == joined(
            left@,
            optional_str(left_prefix),
            right@,
            right_prefix@,
            right_table@,
            join_text(optional_str(condition), equi_model(*equi_match)),
            kind,
            floats.model(),
        ),
{
    let total: u64 = left.schema.columns.len() as u64;
    if total >= u32::MAX as u64 || right.schema.columns.len() as u64 >= u32::MAX as u64 - total {
        return Err(
            DatabaseError::ExecutionError("Too many columns in a joined row".to_owned()),
        );
    }
    let resolved: Option<String> = match equi_match {
        Some(EquiMatch::Using(cols)) => match resolve_using_condition(
            cols,
            &left.schema,
            left_prefix,
            &right.schema,
            right_prefix,
            right_table,
        ) {
            Ok(s) => Some(s),
            Err(e) => {
                return Err(e);
            },
        },
        Some(EquiMatch::Natural) => match resolve_natural_condition(
            &left.schema,
            left_prefix,
            &right.schema,
            right_prefix,
        ) {
            Ok(s) => s,
            Err(e) => {
                return Err(e);
            },
        },
        None => match condition {
            Some(c) => Some(c.to_owned()),
            None => None,
        },
    };
    let merged = merge_schemas(&left.schema, left_prefix, &right.schema, right_prefix);
    match &resolved {
        Some(c) => join_on(Some(c.as_str()), left, right, merged, kind, floats),
        None => join_on(None, left, right, merged, kind, floats),
    }
}

} // verus!
