//! Lists of plain cells, as bytes.
//!
//! Rows and log records are flattened into cells, and `bincode` turns a list of
//! cells into bytes and back.

use vstd::prelude::*;
use vstd::bytes::{
    lemma_auto_spec_u64_to_from_le_bytes, spec_u64_from_le_bytes, spec_u64_to_le_bytes,
};
use vstd::utf8::{decode_utf8, encode_utf8, encode_utf8_decode_utf8};

verus! {

/// A cell: a kind, two numbers, some bytes and a text.
pub type Cell = (u8, u64, u64, Vec<u8>, String);

/// A cell as contracts speak of it.
#[verifier::ext_equal]
pub struct CellModel {
    pub kind: u8,
    pub first: u64,
    pub second: u64,
    pub bytes: Seq<u8>,
    pub text: Seq<char>,
}

/// The model of a cell.
pub open spec fn cell_model(c: Cell) -> CellModel {
    CellModel { kind: c.0, first: c.1, second: c.2, bytes: c.3@, text: c.4@ }
}

/// The models of some cells.
pub open spec fn cell_models(v: Seq<Cell>) -> Seq<CellModel> {
    v.map_values(|c: Cell| cell_model(c))
}

/// Some bytes with their number before them, in eight bytes, the lowest first.
pub open spec fn counted_bytes(b: Seq<u8>) -> Seq<u8> {
    spec_u64_to_le_bytes(b.len() as u64) + b
}

/// The bytes of a cell: its parts one behind the other, each number in eight
/// bytes, the lowest first, and the text in UTF-8.
pub open spec fn cell_bytes(c: CellModel) -> Seq<u8> {
    seq![c.kind] + spec_u64_to_le_bytes(c.first) + spec_u64_to_le_bytes(c.second) + counted_bytes(
        c.bytes,
    ) + counted_bytes(encode_utf8(c.text))
}

/// The bytes of some cells, one behind the other.
pub open spec fn joined_cells(cells: Seq<CellModel>) -> Seq<u8>
    decreases cells.len(),
{
    if cells.len() == 0 {
        Seq::empty()
    } else {
        cell_bytes(cells[0]) + joined_cells(cells.drop_first())
    }
}

/// The bytes of a list of cells: their number, and then each of them.
pub open spec fn encoded(cells: Seq<CellModel>) -> Seq<u8> {
    spec_u64_to_le_bytes(cells.len() as u64) + joined_cells(cells)
}

/// Whether `a` begins `b`.
pub open spec fn begins(a: Seq<u8>, b: Seq<u8>) -> bool {
    a.len() <= b.len() && b.take(a.len() as int) == a
}

/// The cells whose bytes some bytes begin with.
pub open spec fn decoded(b: Seq<u8>) -> Option<Seq<CellModel>> {
    if exists|c: Seq<CellModel>| begins(#[trigger] encoded(c), b) {
        Some(choose|c: Seq<CellModel>| begins(#[trigger] encoded(c), b))
    } else {
        None
    }
}

/// Calls `bincode::serialize` on a list of cells. It writes the number of cells
/// and the parts of each in turn: numbers in full width with the lowest byte
/// first, and bytes and texts behind their length. It fails only where a size
/// limit is set or a sequence does not know its length; neither is so here.
#[verifier::external_body]
fn serialize_cells(cells: &Vec<Cell>) -> (r: Result<Vec<u8>, String>)
    ensures
        r is Ok,
        r->Ok_0@ == encoded(cell_models(cells@)),
{
    match bincode::serialize(cells) {
        Ok(b) => Ok(b),
        Err(e) => Err(e.to_string()),
    }
}

/// Calls `bincode::deserialize` for a list of cells. It reads what
/// `bincode::serialize` writes, leaves what stands behind it alone, and fails
/// where the bytes begin with no list of cells.
#[verifier::external_body]
fn deserialize_cells(bytes: &[u8]) -> (r: Option<Vec<Cell>>)
    ensures
        match r {
            Some(c) => begins(encoded(cell_models(c@)), bytes@),
            None => forall|c: Seq<CellModel>| !begins(#[trigger] encoded(c), bytes@),
        },
{
    bincode::deserialize::<Vec<Cell>>(bytes).ok()
}

// ---- bytes read back ------------------------------------------------------------------

proof fn lemma_begins_parts(a: Seq<u8>, b: Seq<u8>, c: Seq<u8>)
    requires
        begins(a + b, c),
    ensures
        begins(a, c),
        begins(b, c.skip(a.len() as int)),
{
    let n = a.len() as int;
    assert(c.take(n) =~= a) by {
        assert forall|i: int| 0 <= i < n implies c[i] == a[i] by {
            assert(c.take((a + b).len() as int)[i] == (a + b)[i]);
        }
    }
    assert(c.skip(n).take(b.len() as int) =~= b) by {
        assert forall|i: int| 0 <= i < b.len() implies c.skip(n)[i] == b[i] by {
            assert(c.take((a + b).len() as int)[n + i] == (a + b)[n + i]);
        }
    }
}

proof fn lemma_number(x: u64, y: u64, c: Seq<u8>)
    requires
        begins(spec_u64_to_le_bytes(x), c),
        begins(spec_u64_to_le_bytes(y), c),
    ensures
        x == y,
        spec_u64_to_le_bytes(x).len() == 8,
{
    lemma_auto_spec_u64_to_from_le_bytes();
    assert(spec_u64_to_le_bytes(x) == c.take(8));
    assert(spec_u64_to_le_bytes(y) == c.take(8));
    assert(spec_u64_from_le_bytes(spec_u64_to_le_bytes(x)) == x);
    assert(spec_u64_from_le_bytes(spec_u64_to_le_bytes(y)) == y);
}

proof fn lemma_counted(a: Seq<u8>, b: Seq<u8>, c: Seq<u8>)
    requires
        begins(counted_bytes(a), c),
        begins(counted_bytes(b), c),
        c.len() <= u64::MAX,
    ensures
        a == b,
{
    lemma_auto_spec_u64_to_from_le_bytes();
    let x = a.len() as u64;
    let y = b.len() as u64;
    assert(spec_u64_to_le_bytes(x).len() == 8);
    assert(spec_u64_to_le_bytes(y).len() == 8);
    lemma_begins_parts(spec_u64_to_le_bytes(x), a, c);
    lemma_begins_parts(spec_u64_to_le_bytes(y), b, c);
    lemma_number(x, y, c);
    assert(a == c.skip(8).take(a.len() as int));
    assert(b == c.skip(8).take(b.len() as int));
}

proof fn lemma_cell(a: CellModel, b: CellModel, c: Seq<u8>)
    requires
        begins(cell_bytes(a), c),
        begins(cell_bytes(b), c),
        c.len() <= u64::MAX,
    ensures
        a == b,
{
    lemma_auto_spec_u64_to_from_le_bytes();
    let a1 = seq![a.kind];
    let a2 = spec_u64_to_le_bytes(a.first);
    let a3 = spec_u64_to_le_bytes(a.second);
    let a4 = counted_bytes(a.bytes);
    let a5 = counted_bytes(encode_utf8(a.text));
    let b1 = seq![b.kind];
    let b2 = spec_u64_to_le_bytes(b.first);
    let b3 = spec_u64_to_le_bytes(b.second);
    let b4 = counted_bytes(b.bytes);
    let b5 = counted_bytes(encode_utf8(b.text));
    assert(a2.len() == 8 && a3.len() == 8 && b2.len() == 8 && b3.len() == 8);
    assert(cell_bytes(a) =~= a1 + (a2 + (a3 + (a4 + a5))));
    assert(cell_bytes(b) =~= b1 + (b2 + (b3 + (b4 + b5))));
    lemma_begins_parts(a1, a2 + (a3 + (a4 + a5)), c);
    lemma_begins_parts(b1, b2 + (b3 + (b4 + b5)), c);
    assert(c.take(1)[0] == a.kind);
    assert(c.take(1)[0] == b.kind);
    let d = c.skip(1);
    lemma_begins_parts(a2, a3 + (a4 + a5), d);
    lemma_begins_parts(b2, b3 + (b4 + b5), d);
    lemma_number(a.first, b.first, d);
    let e = d.skip(8);
    lemma_begins_parts(a3, a4 + a5, e);
    lemma_begins_parts(b3, b4 + b5, e);
    lemma_number(a.second, b.second, e);
    let f = e.skip(8);
    lemma_begins_parts(a4, a5, f);
    lemma_begins_parts(b4, b5, f);
    lemma_counted(a.bytes, b.bytes, f);
    let g = f.skip(a4.len() as int);
    lemma_counted(encode_utf8(a.text), encode_utf8(b.text), g);
    encode_utf8_decode_utf8(a.text);
    encode_utf8_decode_utf8(b.text);
    assert(decode_utf8(encode_utf8(a.text)) == decode_utf8(encode_utf8(b.text)));
}

proof fn lemma_joined(a: Seq<CellModel>, b: Seq<CellModel>, c: Seq<u8>)
    requires
        a.len() == b.len(),
        begins(joined_cells(a), c),
        begins(joined_cells(b), c),
        c.len() <= u64::MAX,
    ensures
        a == b,
    decreases a.len(),
{
    if a.len() > 0 {
        lemma_begins_parts(cell_bytes(a[0]), joined_cells(a.drop_first()), c);
        lemma_begins_parts(cell_bytes(b[0]), joined_cells(b.drop_first()), c);
        lemma_cell(a[0], b[0], c);
        let d = c.skip(cell_bytes(a[0]).len() as int);
        lemma_joined(a.drop_first(), b.drop_first(), d);
        assert(a =~= seq![a[0]] + a.drop_first());
        assert(b =~= seq![b[0]] + b.drop_first());
    } else {
        assert(a =~= b);
    }
}

proof fn lemma_joined_long(a: Seq<CellModel>)
    ensures
        joined_cells(a).len() >= a.len(),
    decreases a.len(),
{
    if a.len() > 0 {
        lemma_joined_long(a.drop_first());
    }
}

/// Bytes begin with the bytes of one list of cells at most.
pub proof fn one_reading(a: Seq<CellModel>, b: Seq<CellModel>, c: Seq<u8>)
    requires
        begins(encoded(a), c),
        begins(encoded(b), c),
        c.len() <= u64::MAX,
    ensures
        a == b,
{
    lemma_auto_spec_u64_to_from_le_bytes();
    let x = a.len() as u64;
    let y = b.len() as u64;
    assert(spec_u64_to_le_bytes(x).len() == 8);
    assert(spec_u64_to_le_bytes(y).len() == 8);
    lemma_begins_parts(spec_u64_to_le_bytes(x), joined_cells(a), c);
    lemma_begins_parts(spec_u64_to_le_bytes(y), joined_cells(b), c);
    lemma_number(x, y, c);
    lemma_joined_long(a);
    lemma_joined_long(b);
    lemma_joined(a, b, c.skip(8));
}

/// What was written is read back, whatever stands behind it.
pub proof fn cells_read_back(cells: Seq<CellModel>, rest: Seq<u8>)
    requires
        encoded(cells).len() + rest.len() <= u64::MAX,
    ensures
        decoded(encoded(cells) + rest) == Some(cells),
{
    let b = encoded(cells) + rest;
    assert(b.take(encoded(cells).len() as int) =~= encoded(cells));
    assert(begins(encoded(cells), b));
    let c = choose|c: Seq<CellModel>| begins(#[trigger] encoded(c), b);
    one_reading(c, cells, b);
}

/// The bytes of a list of cells. The error is never given: it is there for
/// limits that are not set.
pub fn encode_cells(cells: &Vec<Cell>) -> (r: Result<Vec<u8>, String>)
    ensures
        r matches Ok(b) && b@ == encoded(cell_models(cells@)),
{
    serialize_cells(cells)
}

/// The cells that some bytes begin with.
pub fn decode_cells(bytes: &[u8]) -> (r: Option<Vec<Cell>>)
    ensures
        match r {
            Some(c) => decoded(bytes@) == Some(cell_models(c@)),
            None => decoded(bytes@) is None,
        },
{
    match deserialize_cells(bytes) {
        Some(c) => {
            proof {
                assert(bytes.len() == bytes@.len());
                let m = cell_models(c@);
                assert(begins(encoded(m), bytes@));
                let d = choose|d: Seq<CellModel>| begins(#[trigger] encoded(d), bytes@);
                one_reading(m, d, bytes@);
            }
            Some(c)
        },
        None => None,
    }
}

} // verus!
