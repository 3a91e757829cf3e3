use vstd::prelude::*;

use crate::le::{from_le, le_bytes, le_value, lemma_le_roundtrip, to_le_bytes};

verus! {

/// The size of a row's primary key.
pub const PK_SIZE: usize = 8;

/// The size of a column value (an `f32`).
pub const COL_SIZE: usize = 4;

/// A table of `num_columns` 4-byte columns behind an 8-byte key.
pub struct TableSchema {
    pub num_columns: usize,
}

/// How the workload splits between analytical and transactional work.
#[derive(Debug, Clone, Copy, PartialEq, Eq)]
pub enum WorkloadRatio {
    /// 70% analytical.
    ReadHeavy,
    /// 50% analytical.
    Balance,
    /// 30% analytical.
    WriteHeavy,
}

/// How analytical queries read the table.
#[derive(Debug, Clone, Copy, PartialEq, Eq)]
pub enum WorkloadMode {
    /// Whole rows (the baseline).
    Row,
    /// Single columns.
    Column,
}

impl WorkloadRatio {
    /// The percentage of operations that are analytical.
    pub fn ap_percent(&self) -> (r: u32)
        ensures
            r == (match *self {
                WorkloadRatio::ReadHeavy => 70u32,
                WorkloadRatio::Balance => 50u32,
                WorkloadRatio::WriteHeavy => 30u32,
            }),
    {
        match self {
            WorkloadRatio::ReadHeavy => 70,
            WorkloadRatio::Balance => 50,
            WorkloadRatio::WriteHeavy => 30,
        }
    }
}

/// A row with column `col` set to `bits`, if the row holds that column;
/// otherwise the row unchanged.
pub open spec fn modified_row(row: Seq<u8>, col: nat, bits: u32) -> Seq<u8> {
    let off = PK_SIZE + col * COL_SIZE;
    if off + 4 <= row.len() {
        row.take(off as int) + le_bytes(bits as nat, 4) + row.skip(off + 4)
    } else {
        row
    }
}

impl TableSchema {
    /// A table of `num_columns` columns.
    pub fn new(num_columns: usize) -> (r: Self)
        ensures
            r.num_columns == num_columns,
    {
        TableSchema { num_columns }
    }

    /// The row for key `pk` with the given column values: the key as 8
    /// little-endian bytes, then each value as 4.
    pub fn build_row(&self, pk: usize, vals: &Vec<u32>) -> (r: Vec<u8>)
        ensures
            r@ == crate::htap::row_spec(pk as u64, vals@),
    {
        let schema = crate::htap::TableSchema::new(self.num_columns);
        schema.build_row(pk as u64, vals)
    }

    /// The key of a row: its first 8 bytes, little-endian.
    pub fn get_pk(&self, row: &[u8]) -> (r: u64)
        requires
            row@.len() >= 8,
        ensures
            r == le_value(row@.take(8)),
    {
        let b = vstd::slice::slice_subrange(row, 0, 8);
        assert(b@ =~= row@.take(8));
        from_le(b)
    }

    /// A copy of the row with column `col_idx_to_update` set to `bits`.
    pub fn modify_row(&self, old_row: &[u8], col_idx_to_update: usize, bits: u32) -> (r: Vec<u8>)
        requires
            PK_SIZE + col_idx_to_update * COL_SIZE + 4 <= usize::MAX,
        ensures
            r@ == modified_row(old_row@, col_idx_to_update as nat, bits),
    {
        let mut new_row = vstd::slice::slice_to_vec(old_row);
        let offset = PK_SIZE + col_idx_to_update * COL_SIZE;
        if offset + 4 <= new_row.len() {
            let bytes = to_le_bytes(bits as u64, 4);
            proof {
                lemma_le_roundtrip(bits as nat, 4);
            }
            let mut j: usize = 0;
            while j < 4
                invariant
                    j <= 4,
                    bytes@.len() == 4,
                    offset + 4 <= new_row@.len(),
                    offset + 4 <= usize::MAX,
                    new_row@.len() == old_row@.len(),
                    forall|k: int| 0 <= k < offset ==> #[trigger] new_row@[k] == old_row@[k],
                    forall|k: int| offset + 4 <= k < new_row@.len() ==> #[trigger] new_row@[k] == old_row@[k],
                    forall|k: int| offset <= k < offset + j ==> #[trigger] new_row@[k] == bytes@[k - offset],
                decreases 4 - j,
            {
                new_row.set(offset + j, bytes[j]);
                j += 1;
            }
            assert(new_row@ =~= modified_row(old_row@, col_idx_to_update as nat, bits));
        }
        new_row
    }
}

} // verus!
