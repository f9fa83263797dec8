//! Tables and their columns.

use vstd::prelude::*;
use crate::text::same;

verus! {

/// The type of a column.
#[derive(Clone, Copy, Debug, PartialEq, Eq, Structural)]
pub enum DataType {
    Integer,
    Float,
    String,
    Boolean,
    Timestamp,
}

/// A column of a table.
#[derive(Debug)]
pub struct Column {
    pub id: u32,
    pub name: String,
    pub data_type: DataType,
    pub nullable: bool,
    pub primary_key: bool,
}

/// A column as contracts speak of it.
pub struct ColumnModel {
    pub id: u32,
    pub name: Seq<char>,
    pub data_type: DataType,
    pub nullable: bool,
    pub primary_key: bool,
}

impl View for Column {
    type V = ColumnModel;

    open spec fn view(&self) -> ColumnModel {
        ColumnModel {
            id: self.id,
            name: self.name@,
            data_type: self.data_type,
            nullable: self.nullable,
            primary_key: self.primary_key,
        }
    }
}

impl Clone for Column {
    fn clone(&self) -> (r: Self)
        ensures
            r == *self,
    {
        Column {
            id: self.id,
            name: self.name.clone(),
            data_type: self.data_type,
            nullable: self.nullable,
            primary_key: self.primary_key,
        }
    }
}

/// A table's name and columns.
#[derive(Debug)]
pub struct TableSchema {
    pub table_id: u32,
    pub name: String,
    pub columns: Vec<Column>,
}

/// A schema as contracts speak of it.
pub struct SchemaModel {
    pub table_id: u32,
    pub name: Seq<char>,
    pub columns: Seq<ColumnModel>,
}

/// The columns of a list, each as its model.
pub open spec fn column_models(v: Seq<Column>) -> Seq<ColumnModel> {
    v.map_values(|c: Column| c@)
}

impl View for TableSchema {
    type V = SchemaModel;

    open spec fn view(&self) -> SchemaModel {
        SchemaModel {
            table_id: self.table_id,
            name: self.name@,
            columns: column_models(self.columns@),
        }
    }
}

/// The place of the first column named `name` at `from` or after it.
pub open spec fn column_from(columns: Seq<ColumnModel>, name: Seq<char>, from: int) -> Option<int>
    decreases columns.len() - from,
{
    if from < 0 || from >= columns.len() {
        None
    } else if columns[from].name == name {
        Some(from)
    } else {
        column_from(columns, name, from + 1)
    }
}

impl SchemaModel {
    /// The place of the first column named `name`.
    pub open spec fn position(self, name: Seq<char>) -> Option<int> {
        column_from(self.columns, name, 0)
    }

    /// The place of the first primary-key column at `from` or after it.
    pub open spec fn key_from(self, from: int) -> Option<int>
        decreases self.columns.len() - from,
    {
        if from < 0 || from >= self.columns.len() {
            None
        } else if self.columns[from].primary_key {
            Some(from)
        } else {
            self.key_from(from + 1)
        }
    }

    /// The place of the first primary-key column.
    pub open spec fn key_position(self) -> Option<int> {
        self.key_from(0)
    }
}

/// A place that `column_from` finds is the first of that name.
pub proof fn column_place(columns: Seq<ColumnModel>, name: Seq<char>, from: int)
    requires
        0 <= from,
    ensures
        match column_from(columns, name, from) {
            Some(i) => {
                &&& from <= i < columns.len()
                &&& columns[i].name == name
                &&& forall|j: int| from <= j < i ==> (#[trigger] columns[j]).name != name
            },
            None => forall|j: int| from <= j < columns.len() ==> (#[trigger] columns[j]).name != name,
        },
    decreases columns.len() - from,
{
    if from < columns.len() && columns[from].name != name {
        column_place(columns, name, from + 1);
    }
}

/// A place that `key_from` finds is the first primary-key column.
pub proof fn key_place(schema: SchemaModel, from: int)
    requires
        0 <= from,
    ensures
        match schema.key_from(from) {
            Some(i) => {
                &&& from <= i < schema.columns.len()
                &&& schema.columns[i].primary_key
                &&& forall|j: int| from <= j < i ==> !(#[trigger] schema.columns[j]).primary_key
            },
            None => forall|j: int|
                from <= j < schema.columns.len() ==> !(#[trigger] schema.columns[j]).primary_key,
        },
    decreases schema.columns.len() - from,
{
    if from < schema.columns.len() && !schema.columns[from].primary_key {
        key_place(schema, from + 1);
    }
}

impl TableSchema {
    /// A schema without columns.
    pub fn new(table_id: u32, name: String) -> (r: Self)
        ensures
            r@ == (SchemaModel {
                table_id,
                name: name@,
                columns: Seq::<ColumnModel>::empty(),
            }),
            r.columns@.len() == 0,
    {
        let r = TableSchema { table_id, name, columns: Vec::new() };
        assert(r@.columns == Seq::<ColumnModel>::empty());
        r
    }

    /// Adds a column after the others.
    pub fn add_column(&mut self, column: Column)
        ensures
            final(self)@ == (SchemaModel {
                columns: old(self)@.columns.push(column@),
                ..old(self)@
            }),
            final(self).columns@ == old(self).columns@.push(column),
    {
        self.columns.push(column);
        assert(column_models(self.columns@) == old(self)@.columns.push(column@));
    }

    /// The place of the first column named `name`.
    pub fn position(&self, name: &str) -> (r: Option<usize>)
        ensures
            match r {
                Some(i) => self@.position(name@) == Some(i as int) && i < self.columns@.len(),
                None => self@.position(name@) is None,
            },
    {
        let mut i: usize = 0;
        while i < self.columns.len()
            invariant
                i <= self.columns@.len(),
                self@.position(name@) == column_from(self@.columns, name@, i as int),
            decreases self.columns@.len() - i,
        {
            if same(self.columns[i].name.as_str(), name) {
                return Some(i);
            }
            i = i + 1;
        }
        None
    }

    /// The place of the first primary-key column.
    pub fn key_position(&self) -> (r: Option<usize>)
        ensures
            match r {
                Some(i) => self@.key_position() == Some(i as int) && i < self.columns@.len(),
                None => self@.key_position() is None,
            },
    {
        let mut i: usize = 0;
        while i < self.columns.len()
            invariant
                i <= self.columns@.len(),
                self@.key_position() == self@.key_from(i as int),
            decreases self.columns@.len() - i,
        {
            if self.columns[i].primary_key {
                return Some(i);
            }
            i = i + 1;
        }
        None
    }

    /// The first column named `name`.
    pub fn get_column(&self, name: &str) -> (r: Option<&Column>)
        ensures
            match r {
                Some(c) => self@.position(name@) is Some && c@
                    == self@.columns[self@.position(name@)->0],
                None => self@.position(name@) is None,
            },
    {
        match self.position(name) {
            Some(i) => Some(&self.columns[i]),
            None => None,
        }
    }
}

impl Clone for TableSchema {
    fn clone(&self) -> (r: Self)
        ensures
            r@ == self@,
            r.columns@ == self.columns@,
    {
        let columns = self.columns.clone();
        assert(columns@ == self.columns@);
        TableSchema { table_id: self.table_id, name: self.name.clone(), columns }
    }
}

/// The tables that exist, in the order in which they were registered.
pub struct Catalog {
    pub tables: Vec<TableSchema>,
}

/// The schemas of a list, each as its model.
pub open spec fn schema_models(v: Seq<TableSchema>) -> Seq<SchemaModel> {
    v.map_values(|t: TableSchema| t@)
}

impl View for Catalog {
    type V = Seq<SchemaModel>;

    open spec fn view(&self) -> Seq<SchemaModel> {
        schema_models(self.tables@)
    }
}

/// The place of the first table named `name` at `from` or after it.
pub open spec fn table_from(tables: Seq<SchemaModel>, name: Seq<char>, from: int) -> Option<int>
    decreases tables.len() - from,
{
    if from < 0 || from >= tables.len() {
        None
    } else if tables[from].name == name {
        Some(from)
    } else {
        table_from(tables, name, from + 1)
    }
}

/// The first table named `name`.
pub open spec fn table_named(tables: Seq<SchemaModel>, name: Seq<char>) -> Option<SchemaModel> {
    match table_from(tables, name, 0) {
        Some(i) => Some(tables[i]),
        None => None,
    }
}

/// The place of the first table with this id at `from` or after it.
pub open spec fn id_from(tables: Seq<SchemaModel>, id: u32, from: int) -> Option<int>
    decreases tables.len() - from,
{
    if from < 0 || from >= tables.len() {
        None
    } else if tables[from].table_id == id {
        Some(from)
    } else {
        id_from(tables, id, from + 1)
    }
}

/// The tables once `schema` is registered: it takes the place of a table with
/// its id, or comes last where there is none.
pub open spec fn registered(tables: Seq<SchemaModel>, schema: SchemaModel) -> Seq<SchemaModel> {
    match id_from(tables, schema.table_id, 0) {
        Some(i) => tables.update(i, schema),
        None => tables.push(schema),
    }
}

/// The largest table id among the first `n` tables, or zero.
pub open spec fn highest_id(tables: Seq<SchemaModel>, n: int) -> int
    decreases n,
{
    if n <= 0 || n > tables.len() {
        0
    } else {
        let rest = highest_id(tables, n - 1);
        if tables[n - 1].table_id > rest { tables[n - 1].table_id as int } else { rest }
    }
}

/// No table has an id above the highest one, so the number after it is free.
pub proof fn highest_id_bounds(tables: Seq<SchemaModel>, n: int)
    requires
        0 <= n <= tables.len(),
    ensures
        0 <= highest_id(tables, n) <= u32::MAX,
        forall|i: int| 0 <= i < n ==> (#[trigger] tables[i]).table_id <= highest_id(tables, n),
    decreases n,
{
    if n > 0 {
        highest_id_bounds(tables, n - 1);
    }
}

/// Registering a schema keeps the ids of a catalog distinct.
pub proof fn registering_keeps_ids_distinct(tables: Seq<SchemaModel>, schema: SchemaModel)
    requires
        distinct_ids(tables),
    ensures
        distinct_ids(registered(tables, schema)),
{
    id_place(tables, schema.table_id, 0);
}

pub proof fn id_place(tables: Seq<SchemaModel>, id: u32, from: int)
    requires
        0 <= from,
    ensures
        match id_from(tables, id, from) {
            Some(i) => from <= i < tables.len() && tables[i].table_id == id,
            None => forall|j: int| from <= j < tables.len() ==> (#[trigger] tables[j]).table_id != id,
        },
    decreases tables.len() - from,
{
    if from < tables.len() && tables[from].table_id != id {
        id_place(tables, id, from + 1);
    }
}

/// No two tables share an id.
pub open spec fn distinct_ids(tables: Seq<SchemaModel>) -> bool {
    forall|i: int, j: int|
        0 <= i < j < tables.len() ==> (#[trigger] tables[i]).table_id != (#[trigger]
        tables[j]).table_id
}

impl Catalog {
    /// A catalog without tables.
    pub fn new() -> (r: Self)
        ensures
            r@ == Seq::<SchemaModel>::empty(),
    {
        let r = Catalog { tables: Vec::new() };
        assert(r@ == Seq::<SchemaModel>::empty());
        r
    }

    /// The first table named `name`.
    pub fn get_table(&self, name: &str) -> (r: Option<&TableSchema>)
        ensures
            match r {
                Some(t) => table_named(self@, name@) == Some(t@),
                None => table_named(self@, name@) is None,
            },
    {
        let mut i: usize = 0;
        while i < self.tables.len()
            invariant
                i <= self.tables@.len(),
                table_from(self@, name@, 0) == table_from(self@, name@, i as int),
            decreases self.tables@.len() - i,
        {
            if same(self.tables[i].name.as_str(), name) {
                return Some(&self.tables[i]);
            }
            i = i + 1;
        }
        None
    }

    /// The place of the table with this id.
    fn place_of_id(&self, id: u32) -> (r: Option<usize>)
        ensures
            match r {
                Some(i) => id_from(self@, id, 0) == Some(i as int) && i < self.tables@.len(),
                None => id_from(self@, id, 0) is None,
            },
    {
        let mut i: usize = 0;
        while i < self.tables.len()
            invariant
                i <= self.tables@.len(),
                id_from(self@, id, 0) == id_from(self@, id, i as int),
            decreases self.tables@.len() - i,
        {
            if self.tables[i].table_id == id {
                return Some(i);
            }
            i = i + 1;
        }
        None
    }

    /// The table with this id.
    pub fn get_table_by_id(&self, id: u32) -> (r: Option<&TableSchema>)
        ensures
            match r {
                Some(t) => id_from(self@, id, 0) is Some && t@ == self@[id_from(self@, id, 0)->0],
                None => id_from(self@, id, 0) is None,
            },
    {
        match self.place_of_id(id) {
            Some(i) => Some(&self.tables[i]),
            None => None,
        }
    }

    /// Adds a table, or replaces the one that has its id.
    pub fn register_table(&mut self, schema: TableSchema)
        ensures
            final(self)@ == registered(old(self)@, schema@),
    {
        match self.place_of_id(schema.table_id) {
            Some(i) => {
                self.tables.set(i, schema);
                assert(self@ == old(self)@.update(i as int, schema@));
            },
            None => {
                self.tables.push(schema);
                assert(self@ == old(self)@.push(schema@));
            },
        }
    }

    /// The largest table id in use, or zero.
    pub fn max_table_id(&self) -> (r: u32)
        ensures
            r == highest_id(self@, self@.len() as int),
    {
        let mut top: u32 = 0;
        let mut i: usize = 0;
        while i < self.tables.len()
            invariant
                i <= self.tables@.len(),
                top == highest_id(self@, i as int),
            decreases self.tables@.len() - i,
        {
            if self.tables[i].table_id > top {
                top = self.tables[i].table_id;
            }
            i = i + 1;
        }
        top
    }
}

} // verus!
