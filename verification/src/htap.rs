use vstd::prelude::*;

use crate::le::{from_le, le_bytes, le_value, lemma_le_roundtrip, to_le_bytes};
use crate::rng::{random_below, shuffle};

verus! {

/// The size of a row's primary key (a `u64`).
pub const PK_SIZE: usize = 8;

/// The size of a column value (an `f32`).
pub const COL_SIZE: usize = 4;

/// A table of `num_columns` 4-byte columns behind an 8-byte key; a row is
/// the key and the columns, little-endian.
pub struct TableSchema {
    pub num_columns: usize,
}

/// The bytes of a row: the key, then each column value.
pub open spec fn row_spec(pk: u64, vals: Seq<u32>) -> Seq<u8>
    decreases vals.len(),
{
    if vals.len() == 0 {
        le_bytes(pk as nat, 8)
    } else {
        row_spec(pk, vals.drop_last()) + le_bytes(vals.last() as nat, 4)
    }
}

/// The key of a row: its first 8 bytes, or 0 for a shorter row.
pub open spec fn pk_spec(row: Seq<u8>) -> u64 {
    if row.len() < PK_SIZE {
        0
    } else {
        le_value(row.take(8)) as u64
    }
}

/// Column `idx` of a row as the bits of an `f32`, if the row is long enough.
pub open spec fn column_spec(row: Seq<u8>, idx: nat) -> Option<u32> {
    let off = PK_SIZE + idx * COL_SIZE;
    if off + COL_SIZE > row.len() {
        None
    } else {
        Some(le_value(row.subrange(off as int, off + 4)) as u32)
    }
}

proof fn lemma_row_len(pk: u64, vals: Seq<u32>)
    ensures
        row_spec(pk, vals).len() == 8 + 4 * vals.len(),
        row_spec(pk, vals).take(8) == le_bytes(pk as nat, 8),
        forall|i: int| 0 <= i < vals.len() ==> #[trigger] row_spec(pk, vals).subrange(8 + 4 * i, 8 + 4 * i + 4) == le_bytes(vals[i] as nat, 4),
    decreases vals.len(),
{
    lemma_le_roundtrip(pk as nat, 8);
    if vals.len() > 0 {
        let init = vals.drop_last();
        lemma_row_len(pk, init);
        lemma_le_roundtrip(vals.last() as nat, 4);
        let r = row_spec(pk, vals);
        let r0 = row_spec(pk, init);
        assert(r.take(8) =~= r0.take(8));
        assert forall|i: int| 0 <= i < vals.len() implies #[trigger] r.subrange(8 + 4 * i, 8 + 4 * i + 4) == le_bytes(vals[i] as nat, 4) by {
            if i < vals.len() - 1 {
                assert(r.subrange(8 + 4 * i, 8 + 4 * i + 4) =~= r0.subrange(8 + 4 * i, 8 + 4 * i + 4));
                assert(init[i] == vals[i]);
            } else {
                assert(r.subrange(8 + 4 * i, 8 + 4 * i + 4) =~= le_bytes(vals.last() as nat, 4));
            }
        }
    }
}

/// A row built from a key and column values reads back that key and those
/// values, and nothing past them.
pub proof fn lemma_row_reads_back(pk: u64, vals: Seq<u32>, idx: nat)
    ensures
        pk_spec(row_spec(pk, vals)) == pk,
        idx < vals.len() ==> column_spec(row_spec(pk, vals), idx) == Some(vals[idx as int]),
        idx >= vals.len() ==> column_spec(row_spec(pk, vals), idx) is None,
{
    lemma_row_len(pk, vals);
    lemma_le_roundtrip(pk as nat, 8);
    assert(crate::aggregate::pow256(8) == 0x1_0000_0000_0000_0000) by {
        reveal_with_fuel(crate::aggregate::pow256, 9);
    }
    assert((pk as nat) % 0x1_0000_0000_0000_0000 == pk as nat);
    if idx < vals.len() {
        let i = idx as int;
        lemma_le_roundtrip(vals[i] as nat, 4);
        assert(crate::aggregate::pow256(4) == 0x1_0000_0000) by {
            reveal_with_fuel(crate::aggregate::pow256, 5);
        }
        assert(row_spec(pk, vals).subrange(8 + 4 * i, 8 + 4 * i + 4) == le_bytes(vals[i] as nat, 4));
        assert((vals[i] as nat) % 0x1_0000_0000 == vals[i] as nat);
    }
}

impl TableSchema {
    /// A table of `num_columns` columns.
    pub fn new(num_columns: usize) -> (r: Self)
        ensures
            r.num_columns == num_columns,
    {
        TableSchema { num_columns }
    }

    /// The row for key `pk` with the given column values (the bits of
    /// `f32`s).
    pub fn build_row(&self, pk: u64, vals: &Vec<u32>) -> (r: Vec<u8>)
        ensures
            r@ == row_spec(pk, vals@),
    {
        let mut buf = to_le_bytes(pk, 8);
        let mut i: usize = 0;
        assert(vals@.take(0) =~= Seq::<u32>::empty());
        while i < vals.len()
            invariant
                i <= vals@.len(),
                buf@ == row_spec(pk, vals@.take(i as int)),
            decreases vals@.len() - i,
        {
            let b = to_le_bytes(vals[i] as u64, 4);
            let mut j: usize = 0;
            let ghost before = buf@;
            proof {
                lemma_le_roundtrip(vals@[i as int] as nat, 4);
            }
            while j < 4
                invariant
                    j <= 4,
                    b@.len() == 4,
                    buf@ == before + b@.take(j as int),
                decreases 4 - j,
            {
                buf.push(b[j]);
                assert(b@.take(j + 1) =~= b@.take(j as int).push(b@[j as int]));
                j += 1;
            }
            assert(b@.take(4) =~= b@);
            assert(vals@.take(i + 1).drop_last() =~= vals@.take(i as int));
            i += 1;
        }
        assert(vals@.take(i as int) =~= vals@);
        buf
    }

    /// The key of a row: its first 8 bytes, little-endian, or 0 for a
    /// shorter row.
    pub fn get_pk(&self, row: &[u8]) -> (r: u64)
        ensures
            r == pk_spec(row@),
    {
        if row.len() < PK_SIZE {
            return 0;
        }
        let b = vstd::slice::slice_subrange(row, 0, PK_SIZE);
        assert(b@ =~= row@.take(8));
        from_le(b)
    }

    /// Column `col_idx` of a row as the bits of an `f32`, if the row holds
    /// it.
    pub fn get_column(&self, row: &[u8], col_idx: usize) -> (r: Option<u32>)
        requires
            PK_SIZE + col_idx * COL_SIZE + COL_SIZE <= usize::MAX,
        ensures
            r == column_spec(row@, col_idx as nat),
    {
        let offset = PK_SIZE + col_idx * COL_SIZE;
        if offset + COL_SIZE > row.len() {
            return None;
        }
        let b = vstd::slice::slice_subrange(row, offset, offset + COL_SIZE);
        let v = from_le(b);
        proof {
            crate::le::lemma_le_value_bound(b@);
        }
        Some(v as u32)
    }

    /// The size of a row in bytes.
    pub fn row_size(&self) -> (r: usize)
        requires
            PK_SIZE + self.num_columns * COL_SIZE <= usize::MAX,
        ensures
            r == PK_SIZE + self.num_columns * COL_SIZE,
    {
        PK_SIZE + self.num_columns * COL_SIZE
    }
}

/// The analytical queries of the mixed workload.
#[derive(Debug, Clone, Copy, PartialEq, Eq)]
pub enum QueryType {
    /// Count the rows whose key is below a threshold.
    Q1,
    /// Project four columns of the rows whose filter column is below it.
    Q2,
    /// Maximum of one column and average of another over those rows.
    Q3,
}

impl QueryType {
    /// The query numbered `i`: 0 is `Q1`, 1 is `Q2`, anything else `Q3`.
    pub fn from_index(i: u32) -> (r: Self)
        ensures
            r == (if i == 0 { QueryType::Q1 } else if i == 1 { QueryType::Q2 } else { QueryType::Q3 }),
    {
        if i == 0 {
            QueryType::Q1
        } else if i == 1 {
            QueryType::Q2
        } else {
            QueryType::Q3
        }
    }

    /// A query type drawn at random.
    pub fn random() -> (r: Self) {
        Self::from_index(random_below(3))
    }
}

/// Counts the rows whose big-endian 8-byte key is below `theta` (any other
/// key counts as 0) and whose value is at least a full row long.
pub open spec fn q1_count(entries: Seq<(Seq<u8>, Seq<u8>)>, row_size: nat, theta: u64) -> nat
    decreases entries.len(),
{
    if entries.len() == 0 {
        0
    } else {
        q1_count(entries.drop_last(), row_size, theta) + if q1_counts(entries.last(), row_size, theta) { 1nat } else { 0nat }
    }
}

/// The key of a row when it is 8 bytes, big-endian; 0 otherwise.
pub open spec fn be_key(k: Seq<u8>) -> nat {
    if k.len() == 8 {
        crate::aggregate::be_value(k)
    } else {
        0
    }
}

/// Whether Q1 counts an entry: its key reads below `theta` and its value
/// holds a whole row.
pub open spec fn q1_counts(e: (Seq<u8>, Seq<u8>), row_size: nat, theta: u64) -> bool {
    be_key(e.0) < theta && e.1.len() >= row_size
}

/// Q1 over the table's entries: the rows below `theta` that hold a full row.
pub fn execute_q1(entries: &Vec<(Vec<u8>, Vec<u8>)>, schema: &TableSchema, theta: u64) -> (r: usize)
    requires
        PK_SIZE + schema.num_columns * COL_SIZE <= usize::MAX,
    ensures
        r == q1_count(entries@.map_values(|e: (Vec<u8>, Vec<u8>)| (e.0@, e.1@)), (schema.num_columns * 4 + 8) as nat, theta),
{
    let ghost es = entries@.map_values(|e: (Vec<u8>, Vec<u8>)| (e.0@, e.1@));
    let row_size = schema.row_size();
    let mut count: usize = 0;
    let mut i: usize = 0;
    assert(es.take(0) =~= Seq::<(Seq<u8>, Seq<u8>)>::empty());
    while i < entries.len()
        invariant
            i <= entries@.len(),
            es == entries@.map_values(|e: (Vec<u8>, Vec<u8>)| (e.0@, e.1@)),
            row_size == schema.num_columns * 4 + 8,
            count == q1_count(es.take(i as int), row_size as nat, theta),
            count <= i,
        decreases entries@.len() - i,
    {
        let key = &entries[i].0;
        let value = &entries[i].1;
        assert(es[i as int] == (key@, value@));
        let pk: u64 = if key.len() == 8 {
            crate::aggregate::be_u64(key.as_slice())
        } else {
            0
        };
        assert(es.take(i + 1).drop_last() =~= es.take(i as int));
        if pk < theta && value.len() >= row_size {
            count += 1;
        }
        i += 1;
    }
    assert(es.take(i as int) =~= es);
    count
}

/// One operation of the mixed workload.
#[derive(Debug, Clone, Copy, PartialEq, Eq)]
pub enum Operation {
    /// Insert the row with this key.
    Insert(u64),
    /// Run this query with this filter threshold.
    Query(QueryType, u64),
}

/// A mixed workload: inserts and analytical queries in random order.
pub struct WorkloadGenerator {
    pub operations: Vec<Operation>,
}

impl WorkloadGenerator {
    /// A workload of `num_olap` queries of random types, all with threshold
    /// `theta`, and `num_oltp` inserts of the keys after `total_rows`, in
    /// random order.
    pub fn with_counts(num_olap: usize, num_oltp: usize, theta: u64, total_rows: u64) -> (r: Self)
        requires
            total_rows + num_oltp <= u64::MAX,
            num_olap + num_oltp <= usize::MAX,
        ensures
            exists|pre: Seq<Operation>| {
                &&& pre.len() == num_olap + num_oltp
                &&& pre.to_multiset() == r.operations@.to_multiset()
                &&& forall|i: int| 0 <= i < num_olap ==> (#[trigger] pre[i] matches Operation::Query(_, t) && t == theta)
                &&& forall|i: int| 0 <= i < num_oltp ==> #[trigger] pre[num_olap + i] == Operation::Insert((total_rows + i) as u64)
            },
            r.operations@.len() == num_olap + num_oltp,
    {
        let mut operations: Vec<Operation> = Vec::new();
        let mut i: usize = 0;
        while i < num_olap
            invariant
                i <= num_olap,
                operations@.len() == i,
                forall|j: int| 0 <= j < i ==> (#[trigger] operations@[j] matches Operation::Query(_, t) && t == theta),
            decreases num_olap - i,
        {
            let query_type = QueryType::random();
            operations.push(Operation::Query(query_type, theta));
            i += 1;
        }
        let mut k: usize = 0;
        while k < num_oltp
            invariant
                k <= num_oltp,
                total_rows + num_oltp <= u64::MAX,
                operations@.len() == num_olap + k,
                forall|j: int| 0 <= j < num_olap ==> (#[trigger] operations@[j] matches Operation::Query(_, t) && t == theta),
                forall|j: int| 0 <= j < k ==> #[trigger] operations@[num_olap + j] == Operation::Insert((total_rows + j) as u64),
            decreases num_oltp - k,
        {
            let pk = total_rows + k as u64;
            operations.push(Operation::Insert(pk));
            k += 1;
        }
        let ghost pre = operations@;
        shuffle(&mut operations);
        WorkloadGenerator { operations }
    }

    /// The number of operations.
    pub fn len(&self) -> (r: usize)
        ensures
            r == self.operations@.len(),
    {
        self.operations.len()
    }

    /// Whether there are no operations.
    pub fn is_empty(&self) -> (r: bool)
        ensures
            r == (self.operations@.len() == 0),
    {
        self.operations.len() == 0
    }
}

} // verus!
