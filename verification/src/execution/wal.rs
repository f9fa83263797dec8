//! The write-ahead log: records, and the frames that hold them.
//!
//! A frame is the length of its payload in four bytes, the lowest first, and
//! the payload. Reading stops at the first frame that is cut short or does not
//! hold a record: what a crash left behind was never durable.

use vstd::prelude::*;
use vstd::bytes::{
    lemma_auto_spec_u32_to_from_le_bytes, spec_u32_from_le_bytes, spec_u32_to_le_bytes,
    u32_from_le_bytes, u32_to_le_bytes,
};
use crate::error::DatabaseError;
use crate::execution::catalog::{
    column_models, Column, ColumnModel, DataType, SchemaModel, TableSchema,
};
use crate::execution::cells::{
    cell_model, cell_models, cells_read_back, decode_cells, decoded, encode_cells, encoded, Cell,
    CellModel,
};
use crate::execution::mvcc_store::{copy_bytes, writes, Write, WriteOp};

verus! {

/// One durable event.
#[derive(Debug)]
pub enum WalRecord {
    CreateTable(TableSchema),
    CreateIndex { table_id: u64, column: String },
    Commit { commit_ts: u64, ops: Vec<WriteOp> },
}

/// A record as contracts speak of it.
pub enum Record {
    CreateTable(SchemaModel),
    CreateIndex { table_id: u64, column: Seq<char> },
    Commit { commit_ts: u64, ops: Seq<Write> },
}

impl View for WalRecord {
    type V = Record;

    open spec fn view(&self) -> Record {
        match *self {
            WalRecord::CreateTable(s) => Record::CreateTable(s@),
            WalRecord::CreateIndex { table_id, column } => Record::CreateIndex {
                table_id,
                column: column@,
            },
            WalRecord::Commit { commit_ts, ops } => Record::Commit { commit_ts, ops: writes(ops@) },
        }
    }
}

/// The records that some records stand for.
pub open spec fn records(v: Seq<WalRecord>) -> Seq<Record> {
    v.map_values(|r: WalRecord| r@)
}

// ---- records as cells ------------------------------------------------------------------

/// The kinds of the first cell of a record.
pub const TABLE_RECORD: u8 = 10;

pub const INDEX_RECORD: u8 = 11;

pub const COMMIT_RECORD: u8 = 12;

/// The kinds of the cells of the writes of a commit.
pub const INSERT_CELL: u8 = 0;

pub const UPDATE_CELL: u8 = 1;

pub const DELETE_CELL: u8 = 2;

/// The number of a column type.
pub open spec fn type_code(t: DataType) -> u8 {
    match t {
        DataType::Integer => 0,
        DataType::Float => 1,
        DataType::String => 2,
        DataType::Boolean => 3,
        DataType::Timestamp => 4,
    }
}

/// The column type of a number.
pub open spec fn code_type(n: u8) -> Option<DataType> {
    if n == 0 {
        Some(DataType::Integer)
    } else if n == 1 {
        Some(DataType::Float)
    } else if n == 2 {
        Some(DataType::String)
    } else if n == 3 {
        Some(DataType::Boolean)
    } else if n == 4 {
        Some(DataType::Timestamp)
    } else {
        None
    }
}

/// The cell of a column. Its second number says whether the column is nullable
/// and whether it is a primary key.
pub open spec fn column_cell(c: ColumnModel) -> CellModel {
    CellModel {
        kind: type_code(c.data_type),
        first: c.id as u64,
        second: if c.nullable {
            if c.primary_key { 3 } else { 1 }
        } else {
            if c.primary_key { 2 } else { 0 }
        },
        bytes: Seq::empty(),
        text: c.name,
    }
}

/// The column of a cell.
pub open spec fn cell_column(c: CellModel) -> Option<ColumnModel> {
    match code_type(c.kind) {
        Some(data_type) => if c.first <= u32::MAX && c.second <= 3 {
            Some(
                ColumnModel {
                    id: c.first as u32,
                    name: c.text,
                    data_type,
                    nullable: c.second == 1 || c.second == 3,
                    primary_key: c.second >= 2,
                },
            )
        } else {
            None
        },
        None => None,
    }
}

/// The cell of a write.
pub open spec fn write_cell(w: Write) -> CellModel {
    match w {
        Write::Insert { table_id, row_id, data } => CellModel {
            kind: INSERT_CELL,
            first: table_id,
            second: row_id,
            bytes: data,
            text: Seq::empty(),
        },
        Write::Update { table_id, row_id, data } => CellModel {
            kind: UPDATE_CELL,
            first: table_id,
            second: row_id,
            bytes: data,
            text: Seq::empty(),
        },
        Write::Delete { table_id, row_id } => CellModel {
            kind: DELETE_CELL,
            first: table_id,
            second: row_id,
            bytes: Seq::empty(),
            text: Seq::empty(),
        },
    }
}

/// The write of a cell.
pub open spec fn cell_write(c: CellModel) -> Option<Write> {
    if c.kind == INSERT_CELL {
        Some(Write::Insert { table_id: c.first, row_id: c.second, data: c.bytes })
    } else if c.kind == UPDATE_CELL {
        Some(Write::Update { table_id: c.first, row_id: c.second, data: c.bytes })
    } else if c.kind == DELETE_CELL {
        Some(Write::Delete { table_id: c.first, row_id: c.second })
    } else {
        None
    }
}

/// The first cell of a record.
pub open spec fn record_head(r: Record) -> CellModel {
    match r {
        Record::CreateTable(s) => CellModel {
            kind: TABLE_RECORD,
            first: s.table_id as u64,
            second: 0,
            bytes: Seq::empty(),
            text: s.name,
        },
        Record::CreateIndex { table_id, column } => CellModel {
            kind: INDEX_RECORD,
            first: table_id,
            second: 0,
            bytes: Seq::empty(),
            text: column,
        },
        Record::Commit { commit_ts, .. } => CellModel {
            kind: COMMIT_RECORD,
            first: commit_ts,
            second: 0,
            bytes: Seq::empty(),
            text: Seq::empty(),
        },
    }
}

/// The other cells of a record.
pub open spec fn record_tail(r: Record) -> Seq<CellModel> {
    match r {
        Record::CreateTable(s) => s.columns.map_values(|c: ColumnModel| column_cell(c)),
        Record::CreateIndex { .. } => Seq::empty(),
        Record::Commit { ops, .. } => ops.map_values(|w: Write| write_cell(w)),
    }
}

/// The cells of a record.
pub open spec fn record_cells(r: Record) -> Seq<CellModel> {
    seq![record_head(r)] + record_tail(r)
}

/// The columns of the cells from the `i`-th on.
pub open spec fn cells_columns(cells: Seq<CellModel>, i: int) -> Option<Seq<ColumnModel>>
    decreases cells.len() - i,
{
    if 0 <= i < cells.len() {
        match (cell_column(cells[i]), cells_columns(cells, i + 1)) {
            (Some(c), Some(rest)) => Some(seq![c] + rest),
            _ => None,
        }
    } else {
        Some(Seq::empty())
    }
}

/// The writes of the cells from the `i`-th on.
pub open spec fn cells_writes(cells: Seq<CellModel>, i: int) -> Option<Seq<Write>>
    decreases cells.len() - i,
{
    if 0 <= i < cells.len() {
        match (cell_write(cells[i]), cells_writes(cells, i + 1)) {
            (Some(w), Some(rest)) => Some(seq![w] + rest),
            _ => None,
        }
    } else {
        Some(Seq::empty())
    }
}

/// The record of some cells.
pub open spec fn cells_record(cells: Seq<CellModel>) -> Option<Record> {
    if cells.len() == 0 {
        None
    } else {
        let head = cells[0];
        if head.kind == TABLE_RECORD {
            match cells_columns(cells, 1) {
                Some(columns) => if head.first <= u32::MAX {
                    Some(
                        Record::CreateTable(
                            SchemaModel {
                                table_id: head.first as u32,
                                name: head.text,
                                columns,
                            },
                        ),
                    )
                } else {
                    None
                },
                None => None,
            }
        } else if head.kind == INDEX_RECORD {
            Some(Record::CreateIndex { table_id: head.first, column: head.text })
        } else if head.kind == COMMIT_RECORD {
            match cells_writes(cells, 1) {
                Some(ops) => Some(Record::Commit { commit_ts: head.first, ops }),
                None => None,
            }
        } else {
            None
        }
    }
}

/// The payload of a record.
pub open spec fn record_bytes(r: Record) -> Seq<u8> {
    encoded(record_cells(r))
}

/// The record of a payload.
pub open spec fn bytes_record(b: Seq<u8>) -> Option<Record> {
    match decoded(b) {
        Some(cells) => cells_record(cells),
        None => None,
    }
}

proof fn lemma_columns_back(s: SchemaModel, cells: Seq<CellModel>, i: int)
    requires
        cells == record_cells(Record::CreateTable(s)),
        1 <= i <= cells.len(),
    ensures
        cells_columns(cells, i) == Some(s.columns.skip(i - 1)),
    decreases cells.len() - i,
{
    if i < cells.len() {
        lemma_columns_back(s, cells, i + 1);
        assert(cells[i] == column_cell(s.columns[i - 1]));
        assert(cell_column(cells[i]) == Some(s.columns[i - 1]));
        assert(s.columns.skip(i - 1) =~= seq![s.columns[i - 1]] + s.columns.skip(i));
    } else {
        assert(s.columns.skip(i - 1) =~= Seq::<ColumnModel>::empty());
    }
}

proof fn lemma_writes_back(ts: u64, ops: Seq<Write>, cells: Seq<CellModel>, i: int)
    requires
        cells == record_cells(Record::Commit { commit_ts: ts, ops }),
        1 <= i <= cells.len(),
    ensures
        cells_writes(cells, i) == Some(ops.skip(i - 1)),
    decreases cells.len() - i,
{
    if i < cells.len() {
        lemma_writes_back(ts, ops, cells, i + 1);
        assert(cells[i] == write_cell(ops[i - 1]));
        assert(ops.skip(i - 1) =~= seq![ops[i - 1]] + ops.skip(i));
    } else {
        assert(ops.skip(i - 1) =~= Seq::<Write>::empty());
    }
}

/// A record is read back from its payload.
pub proof fn records_read_back(r: Record)
    requires
        record_bytes(r).len() <= u64::MAX,
    ensures
        bytes_record(record_bytes(r)) == Some(r),
{
    let cells = record_cells(r);
    cells_read_back(cells, Seq::empty());
    assert(record_bytes(r) + Seq::<u8>::empty() =~= record_bytes(r));
    match r {
        Record::CreateTable(s) => {
            lemma_columns_back(s, cells, 1);
            assert(s.columns.skip(0) =~= s.columns);
        },
        Record::CreateIndex { .. } => {},
        Record::Commit { commit_ts, ops } => {
            lemma_writes_back(commit_ts, ops, cells, 1);
            assert(ops.skip(0) =~= ops);
        },
    }
}

// ---- frames ----------------------------------------------------------------------------

/// The frame of a payload.
pub open spec fn frame(payload: Seq<u8>) -> Seq<u8> {
    spec_u32_to_le_bytes(payload.len() as u32) + payload
}

/// The records of a log, up to the first frame that is cut short or holds none.
pub open spec fn logged(log: Seq<u8>) -> Seq<Record>
    decreases log.len(),
{
    if log.len() < 4 {
        Seq::empty()
    } else {
        let n = spec_u32_from_le_bytes(log.take(4)) as int;
        if log.len() < 4 + n {
            Seq::empty()
        } else {
            match bytes_record(log.subrange(4, 4 + n)) {
                Some(r) => seq![r] + logged(log.skip(4 + n)),
                None => Seq::empty(),
            }
        }
    }
}

/// The frames of some records, one behind the other.
pub open spec fn frames(rs: Seq<Record>) -> Seq<u8>
    decreases rs.len(),
{
    if rs.len() == 0 {
        Seq::empty()
    } else {
        frame(record_bytes(rs[0])) + frames(rs.drop_first())
    }
}

/// A frame that was not written to its end: nothing, a part of the length, or
/// the length and fewer bytes than it promises.
pub open spec fn torn(tail: Seq<u8>) -> bool {
    tail.len() < 4 || tail.len() < 4 + spec_u32_from_le_bytes(tail.take(4))
}

/// A log yields the records that were appended to it, in their order; a frame
/// at its end that was not written to its end is as if it were not there.
pub proof fn a_log_yields_its_records(rs: Seq<Record>, tail: Seq<u8>)
    requires
        forall|i: int| 0 <= i < rs.len() ==> record_bytes(#[trigger] rs[i]).len() <= u32::MAX,
        torn(tail),
    ensures
        logged(frames(rs) + tail) == rs,
    decreases rs.len(),
{
    lemma_auto_spec_u32_to_from_le_bytes();
    let log = frames(rs) + tail;
    if rs.len() == 0 {
        assert(log =~= tail);
        assert(rs =~= Seq::<Record>::empty());
    } else {
        let payload = record_bytes(rs[0]);
        let rest = rs.drop_first();
        let n = payload.len() as int;
        let head = spec_u32_to_le_bytes(n as u32);
        assert(head.len() == 4);
        assert forall|i: int| 0 <= i < rest.len() implies record_bytes(#[trigger] rest[i]).len()
            <= u32::MAX by {
            assert(rest[i] == rs[i + 1]);
        }
        a_log_yields_its_records(rest, tail);
        assert(log =~= head + (payload + (frames(rest) + tail)));
        assert(log.take(4) =~= head);
        assert(spec_u32_from_le_bytes(log.take(4)) == n);
        assert(log.subrange(4, 4 + n) =~= payload);
        assert(log.skip(4 + n) =~= frames(rest) + tail);
        records_read_back(rs[0]);
        assert(rs =~= seq![rs[0]] + rest);
    }
}

// ---- reading and writing ---------------------------------------------------------------

fn code_of_type(t: DataType) -> (r: u8)
    ensures
        r == type_code(t),
{
    match t {
        DataType::Integer => 0,
        DataType::Float => 1,
        DataType::String => 2,
        DataType::Boolean => 3,
        DataType::Timestamp => 4,
    }
}

fn type_of_code(n: u8) -> (r: Option<DataType>)
    ensures
        r == code_type(n),
{
    if n == 0 {
        Some(DataType::Integer)
    } else if n == 1 {
        Some(DataType::Float)
    } else if n == 2 {
        Some(DataType::String)
    } else if n == 3 {
        Some(DataType::Boolean)
    } else if n == 4 {
        Some(DataType::Timestamp)
    } else {
        None
    }
}

fn cell_of_column(c: &Column) -> (r: Cell)
    ensures
        cell_model(r) == column_cell(c@),
{
    let empty: Vec<u8> = Vec::new();
    let flags: u64 = if c.nullable {
        if c.primary_key {
            3
        } else {
            1
        }
    } else {
        if c.primary_key {
            2
        } else {
            0
        }
    };
    let r: Cell = (code_of_type(c.data_type), c.id as u64, flags, empty, c.name.clone());
    assert(cell_model(r) =~= column_cell(c@));
    r
}

fn column_of_cell(c: &Cell) -> (r: Option<Column>)
    ensures
        match r {
            Some(col) => cell_column(cell_model(*c)) == Some(col@),
            None => cell_column(cell_model(*c)) is None,
        },
{
    match type_of_code(c.0) {
        Some(data_type) => {
            if c.1 <= 0xffff_ffff && c.2 <= 3 {
                Some(
                    Column {
                        id: c.1 as u32,
                        name: c.4.clone(),
                        data_type,
                        nullable: c.2 == 1 || c.2 == 3,
                        primary_key: c.2 >= 2,
                    },
                )
            } else {
                None
            }
        },
        None => None,
    }
}

fn cell_of_write(op: &WriteOp) -> (r: Cell)
    ensures
        cell_model(r) == write_cell(op@),
{
    let r: Cell = match op {
        WriteOp::Insert { table_id, row_id, data } => (
            INSERT_CELL,
            *table_id,
            *row_id,
            copy_bytes(data),
            String::new(),
        ),
        WriteOp::Update { table_id, row_id, data } => (
            UPDATE_CELL,
            *table_id,
            *row_id,
            copy_bytes(data),
            String::new(),
        ),
        WriteOp::Delete { table_id, row_id } => (
            DELETE_CELL,
            *table_id,
            *row_id,
            Vec::new(),
            String::new(),
        ),
    };
    assert(cell_model(r) =~= write_cell(op@));
    r
}

fn write_of_cell(c: &Cell) -> (r: Option<WriteOp>)
    ensures
        match r {
            Some(op) => cell_write(cell_model(*c)) == Some(op@),
            None => cell_write(cell_model(*c)) is None,
        },
{
    if c.0 == INSERT_CELL {
        Some(WriteOp::Insert { table_id: c.1, row_id: c.2, data: copy_bytes(&c.3) })
    } else if c.0 == UPDATE_CELL {
        Some(WriteOp::Update { table_id: c.1, row_id: c.2, data: copy_bytes(&c.3) })
    } else if c.0 == DELETE_CELL {
        Some(WriteOp::Delete { table_id: c.1, row_id: c.2 })
    } else {
        None
    }
}

fn cells_of_record(record: &WalRecord) -> (r: Vec<Cell>)
    ensures
        cell_models(r@) == record_cells(record@),
{
    let mut out: Vec<Cell> = Vec::new();
    let empty: Vec<u8> = Vec::new();
    match record {
        WalRecord::CreateTable(schema) => {
            out.push((TABLE_RECORD, schema.table_id as u64, 0, empty, schema.name.clone()));
            let ghost want = record_cells(record@);
            let mut i: usize = 0;
            assert(cell_models(out@) =~= want.take(1));
            while i < schema.columns.len()
                invariant
                    i <= schema.columns@.len(),
                    want == seq![record_head(record@)] + column_models(
                        schema.columns@,
                    ).map_values(|c: ColumnModel| column_cell(c)),
                    cell_models(out@) == want.take(i + 1),
                decreases schema.columns@.len() - i,
            {
                let ghost before = out@;
                out.push(cell_of_column(&schema.columns[i]));
                assert(cell_models(out@) =~= cell_models(before).push(
                    column_cell(schema.columns@[i as int]@),
                ));
                assert(cell_models(out@) =~= want.take(i + 2));
                i = i + 1;
            }
            assert(cell_models(out@) =~= want);
        },
        WalRecord::CreateIndex { table_id, column } => {
            out.push((INDEX_RECORD, *table_id, 0, empty, column.clone()));
            assert(cell_models(out@) =~= record_cells(record@));
        },
        WalRecord::Commit { commit_ts, ops } => {
            out.push((COMMIT_RECORD, *commit_ts, 0, empty, String::new()));
            let ghost want = record_cells(record@);
            let mut i: usize = 0;
            assert(cell_models(out@) =~= want.take(1));
            while i < ops.len()
                invariant
                    i <= ops@.len(),
                    want == seq![record_head(record@)] + writes(ops@).map_values(
                        |w: Write| write_cell(w),
                    ),
                    cell_models(out@) == want.take(i + 1),
                decreases ops@.len() - i,
            {
                let ghost before = out@;
                out.push(cell_of_write(&ops[i]));
                assert(cell_models(out@) =~= cell_models(before).push(
                    write_cell(ops@[i as int]@),
                ));
                assert(cell_models(out@) =~= want.take(i + 2));
                i = i + 1;
            }
            assert(cell_models(out@) =~= want);
        },
    }
    out
}

fn columns_of_cells(cells: &Vec<Cell>, from: usize) -> (r: Option<Vec<Column>>)
    requires
        from <= cells@.len(),
    ensures
        match r {
            Some(v) => cells_columns(cell_models(cells@), from as int) == Some(column_models(v@)),
            None => cells_columns(cell_models(cells@), from as int) is None,
        },
{
    let ghost models = cell_models(cells@);
    let mut out: Vec<Column> = Vec::new();
    let mut i: usize = from;
    proof {
        if let Some(rest) = cells_columns(models, from as int) {
            assert(column_models(out@) + rest =~= rest);
        }
    }
    while i < cells.len()
        invariant
            from <= i <= cells@.len(),
            models == cell_models(cells@),
            cells_columns(models, from as int) == match cells_columns(models, i as int) {
                Some(rest) => Some(column_models(out@) + rest),
                None => None,
            },
        decreases cells@.len() - i,
    {
        let ghost before = column_models(out@);
        match column_of_cell(&cells[i]) {
            Some(c) => {
                out.push(c);
                proof {
                    assert(column_models(out@) =~= before.push(c@));
                    if let Some(rest) = cells_columns(models, i + 1) {
                        assert(before + (seq![c@] + rest) =~= column_models(out@) + rest);
                    }
                }
            },
            None => {
                return None;
            },
        }
        i = i + 1;
    }
    assert(column_models(out@) + Seq::<ColumnModel>::empty() =~= column_models(out@));
    Some(out)
}

fn writes_of_cells(cells: &Vec<Cell>, from: usize) -> (r: Option<Vec<WriteOp>>)
    requires
        from <= cells@.len(),
    ensures
        match r {
            Some(v) => cells_writes(cell_models(cells@), from as int) == Some(writes(v@)),
            None => cells_writes(cell_models(cells@), from as int) is None,
        },
{
    let ghost models = cell_models(cells@);
    let mut out: Vec<WriteOp> = Vec::new();
    let mut i: usize = from;
    proof {
        if let Some(rest) = cells_writes(models, from as int) {
            assert(writes(out@) + rest =~= rest);
        }
    }
    while i < cells.len()
        invariant
            from <= i <= cells@.len(),
            models == cell_models(cells@),
            cells_writes(models, from as int) == match cells_writes(models, i as int) {
                Some(rest) => Some(writes(out@) + rest),
                None => None,
            },
        decreases cells@.len() - i,
    {
        let ghost before = writes(out@);
        match write_of_cell(&cells[i]) {
            Some(w) => {
                out.push(w);
                proof {
                    assert(writes(out@) =~= before.push(w@));
                    if let Some(rest) = cells_writes(models, i + 1) {
                        assert(before + (seq![w@] + rest) =~= writes(out@) + rest);
                    }
                }
            },
            None => {
                return None;
            },
        }
        i = i + 1;
    }
    assert(writes(out@) + Seq::<Write>::empty() =~= writes(out@));
    Some(out)
}

/// The record that a payload holds.
pub fn decode_record(payload: &[u8]) -> (r: Option<WalRecord>)
    ensures
        match r {
            Some(rec) => bytes_record(payload@) == Some(rec@),
            None => bytes_record(payload@) is None,
        },
{
    let cells = match decode_cells(payload) {
        Some(c) => c,
        None => {
            return None;
        },
    };
    if cells.len() == 0 {
        return None;
    }
    let ghost models = cell_models(cells@);
    let kind: u8 = cells[0].0;
    assert(models[0] == cell_model(cells@[0]));
    if kind == TABLE_RECORD {
        match columns_of_cells(&cells, 1) {
            Some(columns) => {
                if cells[0].1 <= 0xffff_ffff {
                    Some(
                        WalRecord::CreateTable(
                            TableSchema {
                                table_id: cells[0].1 as u32,
                                name: cells[0].4.clone(),
                                columns,
                            },
                        ),
                    )
                } else {
                    None
                }
            },
            None => None,
        }
    } else if kind == INDEX_RECORD {
        Some(WalRecord::CreateIndex { table_id: cells[0].1, column: cells[0].4.clone() })
    } else if kind == COMMIT_RECORD {
        match writes_of_cells(&cells, 1) {
            Some(ops) => Some(WalRecord::Commit { commit_ts: cells[0].1, ops }),
            None => None,
        }
    } else {
        None
    }
}

/// The frame of a record: what is appended to the log.
pub fn frame_record(record: &WalRecord) -> (r: Result<Vec<u8>, DatabaseError>)
    ensures
        r matches Ok(b) && b@ == frame(record_bytes(record@)),
{
    let cells = cells_of_record(record);
    match encode_cells(&cells) {
        Ok(payload) => {
            #[verifier::truncate]
            let n: u32 = payload.len() as u32;
            let mut out = u32_to_le_bytes(n);
            out.extend_from_slice(payload.as_slice());
            assert(out@ =~= frame(record_bytes(record@)));
            Ok(out)
        },
        Err(e) => Err(DatabaseError::SerializationError(e)),
    }
}

/// The records of a log.
pub fn read_log(log: &Vec<u8>) -> (r: Vec<WalRecord>)
    ensures
        records(r@) == logged(log@),
{
    let mut out: Vec<WalRecord> = Vec::new();
    let mut at: usize = 0;
    assert(log@.skip(0) =~= log@);
    assert(records(out@) + logged(log@) =~= logged(log@));
    loop
        invariant_except_break
            at <= log@.len(),
            logged(log@) == records(out@) + logged(log@.skip(at as int)),
        ensures
            records(out@) == logged(log@),
        decreases log@.len() - at,
    {
        let ghost rest = log@.skip(at as int);
        if log.len() - at < 4 {
            assert(records(out@) + Seq::<Record>::empty() =~= records(out@));
            break;
        }
        let head = vstd::slice::slice_subrange(log.as_slice(), at, at + 4);
        assert(head@ =~= rest.take(4));
        let n: usize = u32_from_le_bytes(head) as usize;
        if log.len() - at - 4 < n {
            assert(records(out@) + Seq::<Record>::empty() =~= records(out@));
            break;
        }
        let payload = vstd::slice::slice_subrange(log.as_slice(), at + 4, at + 4 + n);
        assert(payload@ =~= rest.subrange(4, 4 + n));
        match decode_record(payload) {
            Some(record) => {
                let ghost before = out@;
                out.push(record);
                assert(records(out@) =~= records(before).push(record@));
                assert(rest.skip(4 + n) =~= log@.skip(at + 4 + n));
                assert(records(before) + (seq![record@] + logged(rest.skip(4 + n))) =~= records(
                    out@,
                ) + logged(log@.skip(at + 4 + n)));
                at = at + 4 + n;
            },
            None => {
                assert(records(out@) + Seq::<Record>::empty() =~= records(out@));
                break;
            },
        }
    }
    out
}

} // verus!
