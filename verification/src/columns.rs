use vstd::prelude::*;

verus! {

/// The byte that separates the columns of a row.
pub const DELIM: u8 = 0x7c;

/// The columns of a row: the runs of bytes between delimiters.  A row
/// without a delimiter is a single column; the empty row is one empty column.
pub open spec fn split_spec(row: Seq<u8>) -> Seq<Seq<u8>>
    decreases row.len(),
{
    if row.len() == 0 {
        seq![Seq::<u8>::empty()]
    } else {
        let init = split_spec(row.drop_last());
        if row.last() == DELIM {
            init.push(Seq::<u8>::empty())
        } else {
            init.update(init.len() - 1, init.last().push(row.last()))
        }
    }
}

/// The columns of a row, joined back with single delimiters.
pub open spec fn join_spec(cols: Seq<Seq<u8>>) -> Seq<u8>
    decreases cols.len(),
{
    if cols.len() == 0 {
        Seq::<u8>::empty()
    } else if cols.len() == 1 {
        cols[0]
    } else {
        join_spec(cols.drop_last()).push(DELIM) + cols.last()
    }
}

/// The key under which column `idx` of row `row_key` is stored:
/// `c|`, the index as a big-endian `u16`, `|`, then the row key.
pub open spec fn col_key_spec(row_key: Seq<u8>, idx: nat) -> Seq<u8> {
    col_prefix_spec(idx) + row_key
}

/// The part of a column key that names the column.
pub open spec fn col_prefix_spec(idx: nat) -> Seq<u8> {
    seq![0x63u8, DELIM, ((idx % 65536) / 256) as u8, (idx % 256) as u8, DELIM]
}

/// Does `s` hold a delimiter?
pub open spec fn has_delim(s: Seq<u8>) -> bool {
    exists|i: int| 0 <= i < s.len() && s[i] == DELIM
}

/// Every row has at least one column.
pub proof fn lemma_split_nonempty(row: Seq<u8>)
    ensures
        split_spec(row).len() >= 1,
    decreases row.len(),
{
    if row.len() > 0 {
        lemma_split_nonempty(row.drop_last());
    }
}

/// Joining the columns of a row gives the row back.
pub proof fn lemma_join_split(row: Seq<u8>)
    ensures
        join_spec(split_spec(row)) == row,
    decreases row.len(),
{
    if row.len() == 0 {
        assert(join_spec(split_spec(row)) =~= row);
    } else {
        let r = row.drop_last();
        lemma_join_split(r);
        lemma_split_nonempty(r);
        let init = split_spec(r);
        if row.last() == DELIM {
            let s = init.push(Seq::<u8>::empty());
            assert(s.drop_last() =~= init);
            assert(join_spec(s) =~= row);
        } else {
            let s = init.update(init.len() - 1, init.last().push(row.last()));
            if init.len() == 1 {
                assert(join_spec(init) == init[0]);
                assert(join_spec(s) =~= row);
            } else {
                assert(s.drop_last() =~= init.drop_last());
                assert(join_spec(s) =~= join_spec(init).push(row.last()));
                assert(join_spec(s) =~= row);
            }
        }
    }
}

proof fn lemma_split_append_plain(x: Seq<u8>, b: Seq<u8>)
    requires
        !has_delim(b),
    ensures
        split_spec(x + b) == split_spec(x).update(split_spec(x).len() - 1, split_spec(x).last() + b),
    decreases b.len(),
{
    lemma_split_nonempty(x);
    if b.len() == 0 {
        assert(x + b =~= x);
        assert(split_spec(x).last() + b =~= split_spec(x).last());
        assert(split_spec(x).update(split_spec(x).len() - 1, split_spec(x).last()) =~= split_spec(x));
    } else {
        let b0 = b.drop_last();
        assert(!has_delim(b0)) by {
            if has_delim(b0) {
                let i = choose|i: int| 0 <= i < b0.len() && b0[i] == DELIM;
                assert(b[i] == DELIM);
            }
        }
        lemma_split_append_plain(x, b0);
        assert((x + b).drop_last() =~= x + b0);
        assert((x + b).last() == b.last());
        assert(b.last() != DELIM);
        let s = split_spec(x);
        let s0 = s.update(s.len() - 1, s.last() + b0);
        assert(split_spec(x + b) =~= s0.update(s0.len() - 1, s0.last().push(b.last())));
        assert(s0.last().push(b.last()) =~= s.last() + b);
        assert(split_spec(x + b) =~= s.update(s.len() - 1, s.last() + b));
    }
}

/// Splitting joined columns gives them back, when no column holds a
/// delimiter.
pub proof fn lemma_split_join(cols: Seq<Seq<u8>>)
    requires
        cols.len() >= 1,
        forall|i: int| 0 <= i < cols.len() ==> !has_delim(#[trigger] cols[i]),
    ensures
        split_spec(join_spec(cols)) == cols,
    decreases cols.len(),
{
    if cols.len() == 1 {
        lemma_split_append_plain(Seq::<u8>::empty(), cols[0]);
        assert(Seq::<u8>::empty() + cols[0] =~= cols[0]);
        assert(split_spec(Seq::<u8>::empty()) == seq![Seq::<u8>::empty()]);
        assert(Seq::<u8>::empty() + cols[0] =~= cols[0]);
        assert(split_spec(cols[0]) =~= cols);
    } else {
        let init = cols.drop_last();
        lemma_split_join(init);
        let j = join_spec(init).push(DELIM);
        assert(j.drop_last() =~= join_spec(init));
        assert(split_spec(j) =~= init.push(Seq::<u8>::empty()));
        lemma_split_append_plain(j, cols.last());
        let s = init.push(Seq::<u8>::empty());
        assert(s.last() + cols.last() =~= cols.last());
        assert(split_spec(join_spec(cols)) =~= cols);
    }
}

/// A column key determines the row key and the column's index modulo 2^16.
pub proof fn lemma_col_key_injective(k1: Seq<u8>, i1: nat, k2: Seq<u8>, i2: nat)
    requires
        col_key_spec(k1, i1) == col_key_spec(k2, i2),
    ensures
        k1 == k2,
        i1 % 65536 == i2 % 65536,
{
    let a = col_key_spec(k1, i1);
    let b = col_key_spec(k2, i2);
    assert(a[2] == b[2] && a[3] == b[3]);
    assert(k1 =~= a.skip(5));
    assert(k2 =~= b.skip(5));
    let v1 = i1 % 65536;
    let v2 = i2 % 65536;
    assert(v1 == (v1 / 256) * 256 + v1 % 256);
    assert(v2 == (v2 / 256) * 256 + v2 % 256);
    assert(v1 % 256 == i1 % 256) by (nonlinear_arith)
        requires v1 == i1 % 65536;
    assert(v2 % 256 == i2 % 256) by (nonlinear_arith)
        requires v2 == i2 % 65536;
}

/// A row of the sysbench table layout: an 8-byte grade, a delimiter, and a
/// 4-byte payload.  The grade and the payload are binary and may hold any
/// byte, the delimiter among them.
pub open spec fn grade_layout(row: Seq<u8>) -> bool {
    row.len() == 13 && row[8] == DELIM
}

/// The columns the overlay stores a row as: a row of the grade layout as its
/// grade and its payload, whatever bytes they hold; any other row split at
/// every delimiter.
pub open spec fn row_columns_spec(row: Seq<u8>) -> Seq<Seq<u8>> {
    if grade_layout(row) {
        seq![row.take(8), row.skip(9)]
    } else {
        split_spec(row)
    }
}

/// Joining the stored columns of a row gives the row back.
pub proof fn lemma_join_row_columns(row: Seq<u8>)
    ensures
        join_spec(row_columns_spec(row)) == row,
        row_columns_spec(row).len() >= 1,
{
    if grade_layout(row) {
        let c = row_columns_spec(row);
        assert(c.drop_last() =~= seq![row.take(8)]);
        assert(join_spec(c.drop_last()) == row.take(8));
        assert(row.take(8).push(DELIM) + row.skip(9) =~= row);
    } else {
        lemma_join_split(row);
        lemma_split_nonempty(row);
    }
}

/// Splitting joined columns gives them back: when no column holds a
/// delimiter and the joined row is not of the grade layout, or when there
/// are two columns, the first of 8 bytes and the second of 4.
pub proof fn lemma_row_columns_of_join(cols: Seq<Seq<u8>>)
    requires
        cols.len() >= 1,
        (cols.len() == 2 && cols[0].len() == 8 && cols[1].len() == 4) || (!grade_layout(join_spec(cols))
            && forall|i: int| 0 <= i < cols.len() ==> !has_delim(#[trigger] cols[i])),
    ensures
        row_columns_spec(join_spec(cols)) == cols,
{
    if cols.len() == 2 && cols[0].len() == 8 && cols[1].len() == 4 {
        assert(cols.drop_last() =~= seq![cols[0]]);
        assert(join_spec(cols.drop_last()) == cols.drop_last()[0]);
        assert(cols.last() == cols[1]);
        let r = join_spec(cols);
        assert(r == cols[0].push(DELIM) + cols[1]);
        assert(r.take(8) =~= cols[0]);
        assert(r.skip(9) =~= cols[1]);
        assert(row_columns_spec(r) =~= cols);
    } else {
        lemma_split_join(cols);
    }
}

/// Splits a row into the columns the overlay stores it as.
pub fn row_columns(row: &[u8]) -> (r: Vec<Vec<u8>>)
    ensures
        r@.map_values(|c: Vec<u8>| c@) == row_columns_spec(row@),
{
    if row.len() == 13 && row[8] == DELIM {
        let grade = vstd::slice::slice_to_vec(vstd::slice::slice_subrange(row, 0, 8));
        let payload = vstd::slice::slice_to_vec(vstd::slice::slice_subrange(row, 9, 13));
        let mut r: Vec<Vec<u8>> = Vec::new();
        r.push(grade);
        r.push(payload);
        assert(r@.map_values(|c: Vec<u8>| c@) =~= seq![row@.take(8), row@.skip(9)]);
        r
    } else {
        split_cols(row)
    }
}

/// Splits a row at every delimiter.
pub fn split_cols(row: &[u8]) -> (r: Vec<Vec<u8>>)
    ensures
        r@.map_values(|c: Vec<u8>| c@) == split_spec(row@),
{
    let mut cols: Vec<Vec<u8>> = Vec::new();
    let mut start: usize = 0;
    let mut i: usize = 0;
    assert(row@.take(0) =~= Seq::<u8>::empty());
    assert(cols@.map_values(|c: Vec<u8>| c@) =~= Seq::<Seq<u8>>::empty());
    assert(row@.subrange(0, 0) =~= Seq::<u8>::empty());
    assert(split_spec(Seq::<u8>::empty()) == seq![Seq::<u8>::empty()]);
    assert(cols@.map_values(|c: Vec<u8>| c@).push(row@.subrange(0, 0)) =~= split_spec(row@.take(0)));
    while i < row.len()
        invariant
            start <= i <= row.len(),
            cols@.map_values(|c: Vec<u8>| c@).push(row@.subrange(start as int, i as int))
                == split_spec(row@.take(i as int)),
        decreases row.len() - i,
    {
        let ghost before = cols@.map_values(|c: Vec<u8>| c@);
        assert(row@.take(i + 1).drop_last() =~= row@.take(i as int));
        assert(row@.take(i + 1).last() == row@[i as int]);
        if row[i] == DELIM {
            let c = vstd::slice::slice_to_vec(vstd::slice::slice_subrange(row, start, i));
            let ghost cv = c@;
            assert(cv == row@.subrange(start as int, i as int));
            cols.push(c);
            assert(cols@.map_values(|c: Vec<u8>| c@) =~= before.push(cv));
            start = i + 1;
            assert(row@.subrange(start as int, i + 1) =~= Seq::<u8>::empty());
            assert(cols@.map_values(|c: Vec<u8>| c@).push(row@.subrange(start as int, i + 1))
                =~= split_spec(row@.take(i + 1)));
        } else {
            assert(row@.subrange(start as int, i + 1) =~= row@.subrange(start as int, i as int).push(row@[i as int]));
            assert(cols@.map_values(|c: Vec<u8>| c@).push(row@.subrange(start as int, i + 1))
                =~= split_spec(row@.take(i + 1)));
        }
        i += 1;
    }
    let c = vstd::slice::slice_to_vec(vstd::slice::slice_subrange(row, start, row.len()));
    cols.push(c);
    assert(row@.take(row.len() as int) =~= row@);
    assert(cols@.map_values(|c: Vec<u8>| c@) =~= split_spec(row@));
    cols
}

/// Joins columns with single delimiters.
pub fn join_cols_vec(cols: &Vec<Vec<u8>>) -> (r: Vec<u8>)
    ensures
        r@ == join_spec(cols@.map_values(|c: Vec<u8>| c@)),
{
    let ghost cs = cols@.map_values(|c: Vec<u8>| c@);
    let mut buf: Vec<u8> = Vec::new();
    let mut i: usize = 0;
    while i < cols.len()
        invariant
            i <= cols.len(),
            cs == cols@.map_values(|c: Vec<u8>| c@),
            buf@ == join_spec(cs.take(i as int)),
        decreases cols.len() - i,
    {
        assert(cs.take(i + 1).drop_last() =~= cs.take(i as int));
        assert(cs.take(i + 1).last() == cols@[i as int]@);
        if i > 0 {
            buf.push(DELIM);
        }
        let mut j: usize = 0;
        let ghost base = buf@;
        while j < cols[i].len()
            invariant
                i < cols.len(),
                j <= cols@[i as int]@.len(),
                buf@ == base + cols@[i as int]@.take(j as int),
            decreases cols@[i as int]@.len() - j,
        {
            buf.push(cols[i][j]);
            assert(cols@[i as int]@.take(j + 1) =~= cols@[i as int]@.take(j as int).push(cols@[i as int]@[j as int]));
            j += 1;
        }
        assert(cols@[i as int]@.take(j as int) =~= cols@[i as int]@);
        if i == 0 {
            assert(buf@ =~= join_spec(cs.take(1)));
        } else {
            assert(buf@ =~= join_spec(cs.take(i + 1)));
        }
        i += 1;
    }
    assert(cs.take(cols.len() as int) =~= cs);
    buf
}

/// The key under which column `col_idx` of row `row_key` is stored.
pub fn make_col_key(row_key: &[u8], col_idx: usize) -> (r: Vec<u8>)
    ensures
        r@ == col_key_spec(row_key@, col_idx as nat),
{
    let v: usize = col_idx % 65536;
    let mut out: Vec<u8> = Vec::new();
    out.push(0x63u8);
    out.push(DELIM);
    out.push((v / 256) as u8);
    out.push((col_idx % 256) as u8);
    out.push(DELIM);
    let mut i: usize = 0;
    while i < row_key.len()
        invariant
            i <= row_key.len(),
            out@ == col_prefix_spec(col_idx as nat) + row_key@.take(i as int),
        decreases row_key.len() - i,
    {
        out.push(row_key[i]);
        assert(row_key@.take(i + 1) =~= row_key@.take(i as int).push(row_key@[i as int]));
        i += 1;
    }
    assert(row_key@.take(i as int) =~= row_key@);
    out
}

} // verus!
