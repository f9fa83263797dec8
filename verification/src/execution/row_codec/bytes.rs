//! Rows as bytes.

use vstd::prelude::*;
use crate::error::DatabaseError;
use crate::execution::cells::{
    cell_model, cell_models, cells_read_back, decode_cells, decoded, encode_cells, encoded, Cell,
    CellModel,
};
use crate::execution::operators::{data, Datum, Tuple, Value};
use crate::float::F64;

verus! {

/// The kinds of the cells of a row.
pub const INTEGER_CELL: u8 = 0;

pub const FLOAT_CELL: u8 = 1;

pub const TEXT_CELL: u8 = 2;

pub const BOOLEAN_CELL: u8 = 3;

pub const NULL_CELL: u8 = 4;

/// A cell that holds a number alone.
pub open spec fn number_cell(kind: u8, n: u64) -> CellModel {
    CellModel { kind, first: n, second: 0, bytes: Seq::empty(), text: Seq::empty() }
}

/// The cell of a value.
pub open spec fn datum_cell(d: Datum) -> CellModel {
    match d {
        Datum::Integer(i) => number_cell(INTEGER_CELL, i as u64),
        Datum::Float(x) => number_cell(FLOAT_CELL, x),
        Datum::Text(s) => CellModel { text: s, ..number_cell(TEXT_CELL, 0) },
        Datum::Boolean(b) => number_cell(BOOLEAN_CELL, if b { 1 } else { 0 }),
        Datum::Null => number_cell(NULL_CELL, 0),
    }
}

/// The value of a cell.
pub open spec fn cell_datum(c: CellModel) -> Option<Datum> {
    if c.kind == INTEGER_CELL {
        Some(Datum::Integer(c.first as i64))
    } else if c.kind == FLOAT_CELL {
        Some(Datum::Float(c.first))
    } else if c.kind == TEXT_CELL {
        Some(Datum::Text(c.text))
    } else if c.kind == BOOLEAN_CELL {
        Some(Datum::Boolean(c.first != 0))
    } else if c.kind == NULL_CELL {
        Some(Datum::Null)
    } else {
        None
    }
}

/// The cells of a row.
pub open spec fn row_cells(row: Seq<Datum>) -> Seq<CellModel> {
    row.map_values(|d: Datum| datum_cell(d))
}

/// The values of the cells from the `i`-th on.
pub open spec fn cells_row(cells: Seq<CellModel>, i: int) -> Option<Seq<Datum>>
    decreases cells.len() - i,
{
    if 0 <= i < cells.len() {
        match (cell_datum(cells[i]), cells_row(cells, i + 1)) {
            (Some(d), Some(rest)) => Some(seq![d] + rest),
            _ => None,
        }
    } else {
        Some(Seq::empty())
    }
}

/// The bytes of a row.
pub open spec fn row_bytes(row: Seq<Datum>) -> Seq<u8> {
    encoded(row_cells(row))
}

/// The row that some bytes hold.
pub open spec fn bytes_row(b: Seq<u8>) -> Option<Seq<Datum>> {
    match decoded(b) {
        Some(cells) => cells_row(cells, 0),
        None => None,
    }
}

/// A value comes back out of its cell.
pub proof fn cells_hold_values(d: Datum)
    ensures
        cell_datum(datum_cell(d)) == Some(d),
{
    match d {
        Datum::Integer(i) => {
            assert((i as u64) as i64 == i) by (bit_vector);
        },
        _ => {},
    }
}

proof fn lemma_cells_row(row: Seq<Datum>, i: int)
    requires
        0 <= i <= row.len(),
    ensures
        cells_row(row_cells(row), i) == Some(row.skip(i)),
    decreases row.len() - i,
{
    if i < row.len() {
        lemma_cells_row(row, i + 1);
        cells_hold_values(row[i]);
        assert(row.skip(i) =~= seq![row[i]] + row.skip(i + 1));
    } else {
        assert(row.skip(i) =~= Seq::<Datum>::empty());
    }
}

/// A row is read back from its bytes.
pub proof fn rows_read_back(row: Seq<Datum>)
    requires
        row_bytes(row).len() <= u64::MAX,
    ensures
        bytes_row(row_bytes(row)) == Some(row),
{
    cells_read_back(row_cells(row), Seq::empty());
    assert(row_bytes(row) + Seq::<u8>::empty() =~= row_bytes(row));
    lemma_cells_row(row, 0);
    assert(row.skip(0) =~= row);
}

/// The bits of an integer.
pub fn bits_of_integer(i: i64) -> (r: u64)
    ensures
        r == i as u64,
{
    #[verifier::truncate]
    (i as u64)
}

fn integer_of_bits(n: u64) -> (r: i64)
    ensures
        r == n as i64,
{
    #[verifier::truncate]
    (n as i64)
}

fn cell_of(v: &Value) -> (r: Cell)
    ensures
        cell_model(r) == datum_cell(v@),
{
    let empty: Vec<u8> = Vec::new();
    let r: Cell = match v {
        Value::Integer(i) => (INTEGER_CELL, bits_of_integer(*i), 0, empty, String::new()),
        Value::Float(x) => (FLOAT_CELL, x.bits, 0, empty, String::new()),
        Value::String(s) => (TEXT_CELL, 0, 0, empty, s.clone()),
        Value::Boolean(b) => (
            BOOLEAN_CELL,
            if *b {
                1
            } else {
                0
            },
            0,
            empty,
            String::new(),
        ),
        Value::Null => (NULL_CELL, 0, 0, empty, String::new()),
    };
    assert(cell_model(r) =~= datum_cell(v@));
    r
}

fn value_of(c: &Cell) -> (r: Option<Value>)
    ensures
        match r {
            Some(v) => cell_datum(cell_model(*c)) == Some(v@),
            None => cell_datum(cell_model(*c)) is None,
        },
{
    if c.0 == INTEGER_CELL {
        Some(Value::Integer(integer_of_bits(c.1)))
    } else if c.0 == FLOAT_CELL {
        Some(Value::Float(F64 { bits: c.1 }))
    } else if c.0 == TEXT_CELL {
        Some(Value::String(c.4.clone()))
    } else if c.0 == BOOLEAN_CELL {
        Some(Value::Boolean(c.1 != 0))
    } else if c.0 == NULL_CELL {
        Some(Value::Null)
    } else {
        None
    }
}

/// The bytes of a row.
pub fn encode_row(values: &Vec<Value>) -> (r: Result<Vec<u8>, DatabaseError>)
    ensures
        r matches Ok(b) && b@ == row_bytes(data(values@)),
{
    let mut cells: Vec<Cell> = Vec::new();
    let mut i: usize = 0;
    while i < values.len()
        invariant
            i <= values@.len(),
            cell_models(cells@) == row_cells(data(values@)).take(i as int),
        decreases values@.len() - i,
    {
        let ghost before = cells@;
        cells.push(cell_of(&values[i]));
        assert(cell_models(cells@) =~= cell_models(before).push(datum_cell(values@[i as int]@)));
        assert(cell_models(cells@) =~= row_cells(data(values@)).take(i + 1));
        i = i + 1;
    }
    assert(cell_models(cells@) =~= row_cells(data(values@)));
    match encode_cells(&cells) {
        Ok(b) => Ok(b),
        Err(e) => Err(DatabaseError::SerializationError(e)),
    }
}

/// The row that some bytes hold.
pub fn decode_row(bytes: &[u8]) -> (r: Option<Tuple>)
    ensures
        match r {
            Some(t) => bytes_row(bytes@) == Some(t@),
            None => bytes_row(bytes@) is None,
        },
{
    let cells = match decode_cells(bytes) {
        Some(c) => c,
        None => {
            return None;
        },
    };
    let ghost models = cell_models(cells@);
    let mut values: Vec<Value> = Vec::new();
    let mut i: usize = 0;
    assert(cells_row(models, 0) == prefixed(data(values@), cells_row(models, 0)));
    while i < cells.len()
        invariant
            i <= cells@.len(),
            models == cell_models(cells@),
            cells_row(models, 0) == prefixed(data(values@), cells_row(models, i as int)),
            decoded(bytes@) == Some(models),
        decreases cells@.len() - i,
    {
        let ghost before = values@;
        match value_of(&cells[i]) {
            Some(v) => {
                values.push(v);
                assert(data(values@) =~= data(before).push(v@));
                assert(prefixed(data(before), cells_row(models, i as int)) == prefixed(
                    data(values@),
                    cells_row(models, i + 1),
                )) by {
                    match cells_row(models, i + 1) {
                        Some(rest) => {
                            assert(data(before) + (seq![v@] + rest) =~= data(values@) + rest);
                        },
                        None => {},
                    }
                }
            },
            None => {
                return None;
            },
        }
        i = i + 1;
    }
    assert(data(values@) + Seq::<Datum>::empty() =~= data(values@));
    Some(Tuple { values })
}

/// Some values before those of a row that may not be there.
spec fn prefixed(head: Seq<Datum>, rest: Option<Seq<Datum>>) -> Option<Seq<Datum>> {
    match rest {
        Some(r) => Some(head + r),
        None => None,
    }
}

} // verus!
