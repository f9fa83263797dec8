//! A table id and a row id as one number.

use vstd::prelude::*;

verus! {

/// The number of a row of a table.
pub open spec fn row_code(table_id: u64, row_id: u64) -> u128 {
    (table_id * 0x1_0000_0000_0000_0000 + row_id) as u128
}

/// The number of a row of a table.
pub fn code_row(table_id: u64, row_id: u64) -> (r: u128)
    ensures
        r == row_code(table_id, row_id),
{
    (table_id as u128) * 0x1_0000_0000_0000_0000 + (row_id as u128)
}

/// Different rows have different numbers.
pub proof fn rows_are_told_apart(t: u64, r: u64, u: u64, s: u64)
    ensures
        row_code(t, r) == row_code(u, s) <==> t == u && r == s,
{
}

} // verus!
