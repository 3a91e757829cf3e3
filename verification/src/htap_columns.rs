use vstd::prelude::*;

use crate::htap::{column_spec, pk_spec, TableSchema, COL_SIZE, PK_SIZE};

verus! {

/// The analytical queries of the column-selectivity workload.
#[derive(Debug, Clone, Copy, PartialEq, Eq)]
pub enum QueryType {
    /// Count the rows whose key is below the threshold.
    Q1,
    /// Read the first columns of those rows.
    Q2,
    /// Maximum of each of the first columns over those rows.
    Q3,
}

/// The number of rows whose key, as the schema reads it, is below
/// `threshold`.
pub open spec fn count_below(entries: Seq<(Seq<u8>, Seq<u8>)>, threshold: u64) -> nat
    decreases entries.len(),
{
    if entries.len() == 0 {
        0
    } else {
        count_below(entries.drop_last(), threshold) + if pk_spec(entries.last().0) < threshold { 1nat } else { 0nat }
    }
}

/// The entries, viewed.
pub open spec fn entries_view(entries: Seq<(Vec<u8>, Vec<u8>)>) -> Seq<(Seq<u8>, Seq<u8>)> {
    entries.map_values(|e: (Vec<u8>, Vec<u8>)| (e.0@, e.1@))
}

/// Q1: the rows whose key is below `threshold`.
pub fn execute_q1(entries: &Vec<(Vec<u8>, Vec<u8>)>, schema: &TableSchema, threshold: u64) -> (r: usize)
    ensures
        r == count_below(entries_view(entries@), threshold),
{
    scan_rows(entries, schema, threshold, 0)
}

/// Q2: reads the first `num_columns` columns (at most the schema's) of the
/// rows below `threshold`, and counts those rows.
pub fn execute_q2(entries: &Vec<(Vec<u8>, Vec<u8>)>, schema: &TableSchema, threshold: u64, num_columns: usize) -> (r: usize)
    requires
        PK_SIZE + num_columns * COL_SIZE + COL_SIZE <= usize::MAX,
    ensures
        r == count_below(entries_view(entries@), threshold),
{
    scan_rows(entries, schema, threshold, num_columns)
}

/// Counts the rows below `threshold`, reading the first `num_columns`
/// columns of each (at most the schema's).
fn scan_rows(entries: &Vec<(Vec<u8>, Vec<u8>)>, schema: &TableSchema, threshold: u64, num_columns: usize) -> (r: usize)
    requires
        PK_SIZE + num_columns * COL_SIZE + COL_SIZE <= usize::MAX,
    ensures
        r == count_below(entries_view(entries@), threshold),
{
    let ghost es = entries_view(entries@);
    let ncols = if num_columns < schema.num_columns {
        num_columns
    } else {
        schema.num_columns
    };
    let mut count: usize = 0;
    let mut i: usize = 0;
    assert(es.take(0) =~= Seq::<(Seq<u8>, Seq<u8>)>::empty());
    while i < entries.len()
        invariant
            i <= entries@.len(),
            es == entries_view(entries@),
            ncols <= num_columns,
            PK_SIZE + num_columns * COL_SIZE + COL_SIZE <= usize::MAX,
            count == count_below(es.take(i as int), threshold),
            count <= i,
        decreases entries@.len() - i,
    {
        let pk = schema.get_pk(entries[i].0.as_slice());
        assert(es[i as int].0 == entries@[i as int].0@);
        assert(es.take(i + 1).drop_last() =~= es.take(i as int));
        if pk < threshold {
            let mut c: usize = 0;
            while c < ncols
                invariant
                    c <= ncols <= num_columns,
                    i < entries@.len(),
                    PK_SIZE + num_columns * COL_SIZE + COL_SIZE <= usize::MAX,
                decreases ncols - c,
            {
                assert(PK_SIZE + c * COL_SIZE + COL_SIZE <= usize::MAX) by (nonlinear_arith)
                    requires c <= num_columns, PK_SIZE + num_columns * COL_SIZE + COL_SIZE <= usize::MAX;
                let _value = schema.get_column(entries[i].1.as_slice(), c);
                c += 1;
            }
            count += 1;
        }
        i += 1;
    }
    assert(es.take(i as int) =~= es);
    count
}

/// The result a query reports: for Q1 and Q2 the rows below `threshold`,
/// for Q3 the number of columns whose maximum it takes.
pub fn execute_query(
    entries: &Vec<(Vec<u8>, Vec<u8>)>,
    schema: &TableSchema,
    query_type: QueryType,
    threshold: u64,
    num_columns: usize,
) -> (r: usize)
    requires
        PK_SIZE + num_columns * COL_SIZE + COL_SIZE <= usize::MAX,
    ensures
        r == (match query_type {
            QueryType::Q3 => if num_columns < schema.num_columns { num_columns as nat } else { schema.num_columns as nat },
            _ => count_below(entries_view(entries@), threshold),
        }),
{
    match query_type {
        QueryType::Q1 => execute_q1(entries, schema, threshold),
        QueryType::Q2 => execute_q2(entries, schema, threshold, num_columns),
        QueryType::Q3 => {
            let _rows = scan_rows(entries, schema, threshold, num_columns);
            if num_columns < schema.num_columns {
                num_columns
            } else {
                schema.num_columns
            }
        },
    }
}

} // verus!
