//! Whether the tables and columns that a statement refers to exist.
//!
//! A column is checked where it is a bare name; an expression is not looked
//! into.

use vstd::prelude::*;
use crate::error::{DatabaseError, Fault};
use crate::execution::catalog::{table_named, Catalog, SchemaModel, TableSchema};
use crate::sql::parser::{text_pairs, text_rows, SQLStatement, StatementModel};
use crate::text::{
    alphanumeric, chars_of, decimal, is_alphanumeric, join2, join3, join5, same, texts,
    unsigned_to_text,
};

verus! {

/// Checks statements against a catalog.
pub struct Binder<'a> {
    pub catalog: &'a Catalog,
}

/// A result without a value, as its model.
pub open spec fn unit_result(r: Result<(), DatabaseError>) -> Result<(), Fault> {
    match r {
        Ok(_) => Ok(()),
        Err(e) => Err(e@),
    }
}

/// Whether a text is a bare name.
pub open spec fn simple_identifier(s: Seq<char>) -> bool {
    s.len() > 0 && forall|i: int| 0 <= i < s.len() ==> alphanumeric(#[trigger] s[i]) || s[i] == '_'
}

/// The table of a name, or the fault that there is none.
pub open spec fn required_table(catalog: Seq<SchemaModel>, name: Seq<char>) -> Result<
    SchemaModel,
    Fault,
> {
    match table_named(catalog, name) {
        Some(t) => Ok(t),
        None => Err(Fault::Binding("Table '"@ + name + "' does not exist"@)),
    }
}

/// Whether a column may be asked of a table.
pub open spec fn column_checked(table: SchemaModel, name: Seq<char>) -> Result<(), Fault> {
    if name == "*"@ || !simple_identifier(name) || table.position(name) is Some {
        Ok(())
    } else {
        Err(
            Fault::Binding(
                "Column '"@ + name + "' does not exist on table '"@ + table.name + "'"@,
            ),
        )
    }
}

/// Whether the columns from the `i`-th on may be asked of a table; the first
/// that may not gives the fault.
pub open spec fn columns_checked(table: SchemaModel, names: Seq<Seq<char>>, i: int) -> Result<
    (),
    Fault,
>
    decreases names.len() - i,
{
    if 0 <= i < names.len() {
        match column_checked(table, names[i]) {
            Ok(_) => columns_checked(table, names, i + 1),
            Err(f) => Err(f),
        }
    } else {
        Ok(())
    }
}

/// Whether the rows from the `i`-th on have as many values as they should.
pub open spec fn arity_checked(
    table: Seq<char>,
    values: Seq<Seq<Seq<char>>>,
    expected: int,
    i: int,
) -> Result<(), Fault>
    decreases values.len() - i,
{
    if 0 <= i < values.len() {
        if values[i].len() == expected {
            arity_checked(table, values, expected, i + 1)
        } else {
            Err(
                Fault::Binding(
                    "INSERT into '"@ + table + "' expects "@ + decimal(expected) + " values, got "@
                        + decimal(values[i].len() as int),
                ),
            )
        }
    } else {
        Ok(())
    }
}

/// The columns that are assigned.
pub open spec fn assigned_columns(v: Seq<(Seq<char>, Seq<char>)>) -> Seq<Seq<char>> {
    v.map_values(|a: (Seq<char>, Seq<char>)| a.0)
}

/// Whether a statement refers to what there is. The bare columns of a `SELECT`
/// are those of its first table.
pub open spec fn bound(catalog: Seq<SchemaModel>, s: StatementModel) -> Result<(), Fault> {
    match s {
        StatementModel::Select(q) => match required_table(catalog, q.from) {
            Ok(t) => columns_checked(t, q.columns, 0),
            Err(f) => Err(f),
        },
        StatementModel::Insert(q) => match required_table(catalog, q.table) {
            Ok(t) => match columns_checked(t, q.columns, 0) {
                Ok(_) => arity_checked(
                    t.name,
                    q.values,
                    if q.columns.len() == 0 {
                        t.columns.len() as int
                    } else {
                        q.columns.len() as int
                    },
                    0,
                ),
                Err(f) => Err(f),
            },
            Err(f) => Err(f),
        },
        StatementModel::Update(q) => match required_table(catalog, q.table) {
            Ok(t) => columns_checked(t, assigned_columns(q.assignments), 0),
            Err(f) => Err(f),
        },
        StatementModel::Delete(q) => match required_table(catalog, q.table) {
            Ok(_) => Ok(()),
            Err(f) => Err(f),
        },
        StatementModel::CreateTable(q) => match table_named(catalog, q.name) {
            Some(_) => Err(Fault::Binding("Table '"@ + q.name + "' already exists"@)),
            None => Ok(()),
        },
        StatementModel::CreateIndex(q) => match required_table(catalog, q.table) {
            Ok(_) => Ok(()),
            Err(f) => Err(f),
        },
        StatementModel::Analyze(table) => match required_table(catalog, table) {
            Ok(_) => Ok(()),
            Err(f) => Err(f),
        },
    }
}

impl<'a> Binder<'a> {
    /// A binder for a catalog.
    pub fn new(catalog: &'a Catalog) -> (r: Self)
        ensures
            r.catalog == catalog,
    {
        Binder { catalog }
    }

    /// Checks that what a statement refers to exists, that an `INSERT` has as
    /// many values as columns, and that a new table has a new name.
    pub fn bind(&self, stmt: &SQLStatement) -> (r: Result<(), DatabaseError>)
        ensures
            unit_result(r) == bound(self.catalog@, stmt@),
    {
        match stmt {
            SQLStatement::Select(s) => match self.require_table(s.from.as_str()) {
                Ok(table) => Binder::check_columns(table, &s.columns),
                Err(e) => Err(e),
            },
            SQLStatement::Insert(i) => match self.require_table(i.table.as_str()) {
                Ok(table) => match Binder::check_columns(table, &i.columns) {
                    Ok(_) => Binder::check_arity(
                        table,
                        &i.values,
                        if i.columns.len() == 0 {
                            table.columns.len()
                        } else {
                            i.columns.len()
                        },
                    ),
                    Err(e) => Err(e),
                },
                Err(e) => Err(e),
            },
            SQLStatement::Update(u) => match self.require_table(u.table.as_str()) {
                Ok(table) => Binder::check_targets(table, &u.assignments),
                Err(e) => Err(e),
            },
            SQLStatement::Delete(d) => match self.require_table(d.table.as_str()) {
                Ok(_) => Ok(()),
                Err(e) => Err(e),
            },
            SQLStatement::CreateTable(c) => match self.catalog.get_table(c.name.as_str()) {
                Some(_) => Err(
                    DatabaseError::BindingError(
                        join3("Table '", c.name.as_str(), "' already exists"),
                    ),
                ),
                None => Ok(()),
            },
            SQLStatement::CreateIndex(c) => match self.require_table(c.table.as_str()) {
                Ok(_) => Ok(()),
                Err(e) => Err(e),
            },
            SQLStatement::Analyze(a) => match self.require_table(a.table.as_str()) {
                Ok(_) => Ok(()),
                Err(e) => Err(e),
            },
        }
    }

    fn require_table(&self, name: &str) -> (r: Result<&TableSchema, DatabaseError>)
        ensures
            match r {
                Ok(t) => required_table(self.catalog@, name@) == Ok::<SchemaModel, Fault>(t@),
                Err(e) => required_table(self.catalog@, name@) == Err::<SchemaModel, Fault>(e@),
            },
    {
        match self.catalog.get_table(name) {
            Some(t) => Ok(t),
            None => Err(DatabaseError::BindingError(join3("Table '", name, "' does not exist"))),
        }
    }

    fn check_columns(table: &TableSchema, names: &Vec<String>) -> (r: Result<(), DatabaseError>)
        ensures
            unit_result(r) == columns_checked(table@, texts(names@), 0),
    {
        let ghost all = texts(names@);
        let mut i: usize = 0;
        while i < names.len()
            invariant
                i <= names@.len(),
                all == texts(names@),
                columns_checked(table@, all, 0) == columns_checked(table@, all, i as int),
            decreases names@.len() - i,
        {
            assert(all[i as int] == names@[i as int]@);
            match Binder::check_column(table, names[i].as_str()) {
                Ok(_) => {},
                Err(e) => {
                    return Err(e);
                },
            }
            i = i + 1;
        }
        Ok(())
    }

    fn check_targets(table: &TableSchema, assignments: &Vec<(String, String)>) -> (r: Result<
        (),
        DatabaseError,
    >)
        ensures
            unit_result(r) == columns_checked(
                table@,
                assigned_columns(text_pairs(assignments@)),
                0,
            ),
    {
        let ghost all = assigned_columns(text_pairs(assignments@));
        let mut i: usize = 0;
        while i < assignments.len()
            invariant
                i <= assignments@.len(),
                all == assigned_columns(text_pairs(assignments@)),
                columns_checked(table@, all, 0) == columns_checked(table@, all, i as int),
            decreases assignments@.len() - i,
        {
            assert(all[i as int] == assignments@[i as int].0@);
            match Binder::check_column(table, assignments[i].0.as_str()) {
                Ok(_) => {},
                Err(e) => {
                    return Err(e);
                },
            }
            i = i + 1;
        }
        Ok(())
    }

    fn check_arity(table: &TableSchema, values: &Vec<Vec<String>>, expected: usize) -> (r: Result<
        (),
        DatabaseError,
    >)
        ensures
            unit_result(r) == arity_checked(
                table@.name,
                text_rows(values@),
                expected as int,
                0,
            ),
    {
        let ghost all = text_rows(values@);
        let mut i: usize = 0;
        while i < values.len()
            invariant
                i <= values@.len(),
                all == text_rows(values@),
                arity_checked(table@.name, all, expected as int, 0) == arity_checked(
                    table@.name,
                    all,
                    expected as int,
                    i as int,
                ),
            decreases values@.len() - i,
        {
            assert(all[i as int] == texts(values@[i as int]@));
            let n: usize = values[i].len();
            if n != expected {
                let want = unsigned_to_text(expected as u64);
                let got = unsigned_to_text(n as u64);
                let head = join5(
                    "INSERT into '",
                    table.name.as_str(),
                    "' expects ",
                    want.as_str(),
                    " values, got ",
                );
                return Err(
                    DatabaseError::BindingError(join2(head.as_str(), got.as_str())),
                );
            }
            i = i + 1;
        }
        Ok(())
    }

    fn check_column(table: &TableSchema, name: &str) -> (r: Result<(), DatabaseError>)
        ensures
            unit_result(r) == column_checked(table@, name@),
    {
        if same(name, "*") || !Binder::is_simple_identifier(name) {
            return Ok(());
        }
        match table.get_column(name) {
            Some(_) => Ok(()),
            None => Err(
                DatabaseError::BindingError(
                    join5(
                        "Column '",
                        name,
                        "' does not exist on table '",
                        table.name.as_str(),
                        "'",
                    ),
                ),
            ),
        }
    }

    fn is_simple_identifier(s: &str) -> (r: bool)
        ensures
            r == simple_identifier(s@),
    {
        let v = chars_of(s);
        if v.len() == 0 {
            return false;
        }
        let mut i: usize = 0;
        while i < v.len()
            invariant
                i <= v@.len(),
                v@ == s@,
                forall|k: int| 0 <= k < i ==> alphanumeric(#[trigger] s@[k]) || s@[k] == '_',
            decreases v@.len() - i,
        {
            if !is_alphanumeric(v[i]) && v[i] != '_' {
                assert(!(alphanumeric(s@[i as int]) || s@[i as int] == '_'));
                return false;
            }
            i = i + 1;
        }
        true
    }
}

} // verus!
