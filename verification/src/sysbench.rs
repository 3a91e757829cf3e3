use vstd::prelude::*;

use crate::aggregate::{
    be_u64, be_value, counted, counted_backward, counted_forward, in_scope, lemma_be_value_bound, lemma_map_entries,
    lemma_stats_transfer, map_entries, pow256, range_stats, scan_stats, value_of,
};
use crate::byte_map::{has_key, lemma_entries_map_at, ByteMap};
use crate::bytes::lemma_lex_common_prefix;
use crate::columns::{col_key_spec, col_prefix_spec, grade_layout, has_delim, row_columns_spec, DELIM};
use crate::overlay::{flush_spec, lemma_flush_first_columns, rows_fit, OverlayTree};

verus! {

/// The `k` low bytes of `n`, most significant first.
pub open spec fn be_bytes(n: nat, k: nat) -> Seq<u8>
    decreases k,
{
    if k == 0 {
        Seq::empty()
    } else {
        be_bytes(n / 256, (k - 1) as nat).push((n % 256) as u8)
    }
}

/// Reading back the `k` big-endian bytes of `n` gives `n` modulo 256^k.
pub proof fn lemma_be_roundtrip(n: nat, k: nat)
    ensures
        be_bytes(n, k).len() == k,
        be_value(be_bytes(n, k)) == n % pow256(k),
    decreases k,
{
    if k == 0 {
        assert(n % 1 == 0);
    } else {
        lemma_be_roundtrip(n / 256, (k - 1) as nat);
        let p = pow256((k - 1) as nat);
        crate::le::lemma_pow256_pos((k - 1) as nat);
        vstd::arithmetic::div_mod::lemma_mod_breakdown(n as int, 256, p as int);
        let s = be_bytes(n, k);
        assert(s.drop_last() == be_bytes(n / 256, (k - 1) as nat));
        assert(((n % 256) as u8) as nat == n % 256);
        vstd::arithmetic::mul::lemma_mul_is_commutative(256, ((n / 256) % p) as int);
    }
}

fn push_be(out: &mut Vec<u8>, n: u64, k: usize)
    ensures
        final(out)@ == old(out)@ + be_bytes(n as nat, k as nat),
    decreases k,
{
    if k > 0 {
        push_be(out, n / 256, k - 1);
        let ghost mid = out@;
        out.push((n % 256) as u8);
        assert(old(out)@ + be_bytes(n as nat, k as nat) =~= mid.push((n % 256) as u8));
    } else {
        assert(old(out)@ + be_bytes(n as nat, 0) =~= old(out)@);
    }
}

/// A row of the sysbench table: the grade as 8 big-endian bytes, a
/// delimiter, and the payload as 4 big-endian bytes.
pub open spec fn grade_row_spec(grade: u64, payload: u32) -> Seq<u8> {
    be_bytes(grade as nat, 8).push(DELIM) + be_bytes(payload as nat, 4)
}

/// The grade of a row: its first 8 bytes, big-endian, when the row is of
/// the grade layout (whatever bytes the grade holds), or when the row's
/// first delimiter comes after them.
pub open spec fn row_grade_spec(row: Seq<u8>) -> Option<u64> {
    if grade_layout(row) || (has_delim(row) && !has_delim(row.take(8)) && row.len() >= 8) {
        Some(be_value(row.take(8)) as u64)
    } else {
        None
    }
}

/// Builds a sysbench row from its grade and payload.
pub fn encode_grade_row(grade: u64, payload: u32) -> (r: Vec<u8>)
    ensures
        r@ == grade_row_spec(grade, payload),
{
    let mut row: Vec<u8> = Vec::new();
    push_be(&mut row, grade, 8);
    row.push(DELIM);
    push_be(&mut row, payload as u64, 4);
    assert(Seq::<u8>::empty() + be_bytes(grade as nat, 8) =~= be_bytes(grade as nat, 8));
    row
}

/// Reads the grade of a row.
pub fn row_grade(row: &[u8]) -> (r: Option<u64>)
    ensures
        r == row_grade_spec(row@),
{
    if row.len() == 13 && row[8] == DELIM {
        let g = vstd::slice::slice_subrange(row, 0, 8);
        assert(g@ =~= row@.take(8));
        return Some(be_u64(g));
    }
    let mut i: usize = 0;
    while i < row.len()
        invariant
            i <= row@.len(),
            forall|j: int| 0 <= j < i ==> row@[j] != DELIM,
        ensures
            i <= row@.len(),
            forall|j: int| 0 <= j < i ==> row@[j] != DELIM,
            i < row@.len() ==> row@[i as int] == DELIM,
        decreases row@.len() - i,
    {
        if row[i] == DELIM {
            break;
        }
        i += 1;
    }
    if i >= row.len() {
        assert(!has_delim(row@));
        return None;
    }
    assert(row@[i as int] == DELIM);
    if i < 8 {
        proof {
            if row@.len() >= 8 {
                assert(row@.take(8)[i as int] == row@[i as int]);
            }
        }
        return None;
    }
    assert(!has_delim(row@.take(8))) by {
        assert forall|j: int| 0 <= j < 8 implies row@.take(8)[j] != DELIM by {}
    }
    let b = vstd::slice::slice_subrange(row, 0, 8);
    assert(b@ =~= row@.take(8));
    Some(be_u64(b))
}

/// A row built from a grade and a payload gives that grade back, whatever
/// bytes the grade holds.
pub proof fn lemma_grade_row_reads_back(grade: u64, payload: u32)
    ensures
        row_grade_spec(grade_row_spec(grade, payload)) == Some(grade),
{
    let row = grade_row_spec(grade, payload);
    lemma_be_roundtrip(grade as nat, 8);
    lemma_be_roundtrip(payload as nat, 4);
    assert(pow256(8) == 0x1_0000_0000_0000_0000) by {
        reveal_with_fuel(pow256, 9);
    }
    assert(row.take(8) =~= be_bytes(grade as nat, 8));
    assert(row[8] == DELIM);
    assert(grade_layout(row));
    assert((grade as nat) % 0x1_0000_0000_0000_0000 == grade as nat);
}

/// Sum, sum of squares and count of the grades of the rows whose key lies
/// in `[k_start, k_end)`, read row by row.
pub open spec fn direct_stats(tree: &ByteMap<Vec<u8>>, k_start: Seq<u8>, k_end: Seq<u8>) -> (nat, nat, nat) {
    range_stats(map_entries(tree), k_start, Some(k_end), Seq::empty(), true)
}

/// Scans the rows in `[k_start, k_end)` of a row-oriented table and sums
/// their grades: sum, sum of squares and count; `None` when the sum of
/// squares does not fit in a `u128`.
pub fn direct_range_stats(tree: &ByteMap<Vec<u8>>, k_start: &[u8], k_end: &[u8]) -> (r: Option<(u128, u128, u64)>)
    requires
        tree.wf(),
    ensures
        r is None <==> direct_stats(tree, k_start@, k_end@).1 > u128::MAX,
        r matches Some(t) ==> {
            &&& t.0 == direct_stats(tree, k_start@, k_end@).0
            &&& t.1 == direct_stats(tree, k_start@, k_end@).1
            &&& t.2 == direct_stats(tree, k_start@, k_end@).2
        },
{
    let empty: Vec<u8> = Vec::new();
    assert(empty@.is_prefix_of(k_start@)) by {
        assert(empty@ =~= k_start@.subrange(0, 0));
    }
    scan_stats(tree, k_start, Some(k_end), empty.as_slice(), true, true)
}

/// The key range of an analytical query that starts at key number
/// `k_start`: `range_size` keys, cut off at the end of the table.
pub fn ap_query_bounds(k_start: u64, range_size: u64, table_size: u64) -> (r: (u64, u64))
    requires
        k_start + range_size <= u64::MAX,
    ensures
        r.0 == k_start,
        r.1 == (if k_start + range_size < table_size { (k_start + range_size) as u64 } else { table_size }),
{
    let end = k_start + range_size;
    (k_start, if end < table_size {
        end
    } else {
        table_size
    })
}

/// The number of keys of a run of entries in `[lo, hi)`.
pub open spec fn keys_in_range(s: Seq<(Seq<u8>, Seq<u8>)>, lo: Seq<u8>, hi: Seq<u8>) -> nat
    decreases s.len(),
{
    if s.len() == 0 {
        0
    } else {
        keys_in_range(s.drop_last(), lo, hi) + if !crate::bytes::lex_lt(s.last().0, lo) && crate::bytes::lex_lt(s.last().0, hi) {
            1nat
        } else {
            0nat
        }
    }
}

/// Counts the rows in `[k_start, k_end)` of a row-oriented table, stopping
/// once the count passes `limit`.
pub fn scan_range_count(tree: &ByteMap<Vec<u8>>, k_start: &[u8], k_end: &[u8], limit: u64) -> (r: u64)
    requires
        tree.wf(),
        limit < u64::MAX,
    ensures
        r == (if keys_in_range(map_entries(tree), k_start@, k_end@) > limit {
            (limit + 1) as nat
        } else {
            keys_in_range(map_entries(tree), k_start@, k_end@)
        }),
{
    let ghost s = map_entries(tree);
    let n = tree.len();
    proof {
        crate::bytes::lemma_lex_order();
    }
    let mut i: usize = tree.lower_bound(k_start);
    assert forall|j: int| 0 <= j < n implies #[trigger] s[j].0 == tree.entries()[j].0 by {}
    proof {
        lemma_keys_skip(s, k_start@, k_end@, 0, i as int);
        assert(s.take(0) =~= Seq::<(Seq<u8>, Seq<u8>)>::empty());
    }
    let ghost start = i;
    let mut count: u64 = 0;
    assert(s.take(n as int) =~= s);
    while i < n
        invariant_except_break
            count == keys_in_range(s.take(i as int), k_start@, k_end@),
            count <= limit,
        invariant
            n == tree.spec_len(),
            n == s.len(),
            start <= i <= n,
            s == map_entries(tree),
            tree.wf(),
            limit < u64::MAX,
            forall|j: int, k: int| 0 <= j < k < n ==> crate::bytes::lex_lt(#[trigger] s[j].0, #[trigger] s[k].0),
            forall|j: int| start <= j < n ==> !crate::bytes::lex_lt(#[trigger] s[j].0, k_start@),
            s.take(n as int) == s,
        ensures
            count == (if keys_in_range(s, k_start@, k_end@) > limit {
                (limit + 1) as nat
            } else {
                keys_in_range(s, k_start@, k_end@)
            }),
        decreases n - i,
    {
        proof {
            crate::bytes::lemma_lex_order();
        }
        let k = tree.key_at(i);
        assert(k@ == s[i as int].0);
        if !matches!(crate::bytes::compare_bytes(k.as_slice(), k_end), crate::bytes::KeyOrder::Less) {
            proof {
                assert forall|j: int| i <= j < n implies !(!crate::bytes::lex_lt(#[trigger] s[j].0, k_start@)
                    && crate::bytes::lex_lt(s[j].0, k_end@)) by {
                    if j > i {
                        assert(crate::bytes::lex_lt(s[i as int].0, s[j].0));
                    }
                }
                lemma_keys_skip(s, k_start@, k_end@, i as int, n as int);
                assert(s.take(n as int) =~= s);
            }
            break;
        }
        assert(s.take(i + 1).drop_last() =~= s.take(i as int));
        count = count + 1;
        if count > limit {
            proof {
                lemma_keys_mono(s, k_start@, k_end@, i + 1);
            }
            break;
        }
        i += 1;
    }
    proof {
        if i >= n {
            assert(s.take(n as int) =~= s);
        }
    }
    count
}

proof fn lemma_keys_skip(s: Seq<(Seq<u8>, Seq<u8>)>, lo: Seq<u8>, hi: Seq<u8>, m: int, n: int)
    requires
        0 <= m <= n <= s.len(),
        forall|j: int| m <= j < n ==> !(!crate::bytes::lex_lt(#[trigger] s[j].0, lo) && crate::bytes::lex_lt(s[j].0, hi)),
    ensures
        keys_in_range(s.take(n), lo, hi) == keys_in_range(s.take(m), lo, hi),
    decreases n - m,
{
    if n > m {
        lemma_keys_skip(s, lo, hi, m, n - 1);
        assert(s.take(n).drop_last() =~= s.take(n - 1));
        assert(s.take(n).last() == s[n - 1]);
    }
}

proof fn lemma_keys_mono(s: Seq<(Seq<u8>, Seq<u8>)>, lo: Seq<u8>, hi: Seq<u8>, m: int)
    requires
        0 <= m <= s.len(),
    ensures
        keys_in_range(s.take(m), lo, hi) <= keys_in_range(s, lo, hi),
    decreases s.len() - m,
{
    if m < s.len() {
        lemma_keys_mono(s, lo, hi, m + 1);
        assert(s.take(m + 1).drop_last() =~= s.take(m));
    } else {
        assert(s.take(m) =~= s);
    }
}

/// A row of the grade layout counts its grade both read as a row and read
/// from its first stored column.
proof fn lemma_grade_layout(row: Seq<u8>)
    requires
        grade_layout(row),
    ensures
        row_columns_spec(row)[0] == row.take(8),
        value_of(row, true) is Some,
        value_of(row, true) == value_of(row_columns_spec(row)[0], false),
{
    lemma_be_value_bound(row.take(8));
    assert(pow256(8) == 0x1_0000_0000_0000_0000) by {
        reveal_with_fuel(pow256, 9);
    }
    assert(row_grade_spec(row) == Some(be_value(row.take(8)) as u64));
}

/// Column 0 of an overlay's column store answers an analytical query as the
/// row scan of a row table does: over any key range, the same sum, sum of
/// squares and count of grades, when the column store holds under column 0
/// exactly the first stored column of each row of the table, and every row
/// is of the grade layout: an 8-byte grade, holding any bytes, a delimiter,
/// and a 4-byte payload.
pub proof fn lemma_column_stats_match_row_scan(
    t: &OverlayTree,
    table: &ByteMap<Vec<u8>>,
    k_start: Seq<u8>,
    k_end: Seq<u8>,
)
    requires
        t.wf(),
        table.wf(),
        forall|k: Seq<u8>| #[trigger] table@.contains_key(k) ==> grade_layout(table@[k]@),
        forall|k: Seq<u8>| #[trigger] table@.contains_key(k) ==> t.base_view().contains_key(col_key_spec(k, 0))
            && t.base_view()[col_key_spec(k, 0)] == row_columns_spec(table@[k]@)[0],
        forall|x: Seq<u8>| #[trigger] t.base_view().contains_key(x) && col_prefix_spec(0).is_prefix_of(x)
            ==> table@.contains_key(x.skip(5)),
    ensures
        t.column_range(0, k_start, k_end) == direct_stats(table, k_start, k_end),
{
    let s1 = map_entries(table);
    let s2 = t.base_entries();
    let p = col_prefix_spec(0);
    let empty = Seq::<u8>::empty();
    let lo2 = col_key_spec(k_start, 0);
    let hi2 = Some(col_key_spec(k_end, 0));
    lemma_map_entries(table);
    t.lemma_base_entries();
    let m1 = table@.map_values(|v: Vec<u8>| v@);
    let m2 = t.base_view();
    assert(counted_forward(s1, k_start, Some(k_end), empty, true, s2, lo2, hi2, p, false, p)) by {
        reveal(counted_forward);
        assert forall|i: int| #![trigger s1[i]] 0 <= i < s1.len() && counted(s1[i], k_start, Some(k_end), empty, true)
            implies exists|j: int| #![trigger s2[j]] 0 <= j < s2.len() && s2[j].0 == p + s1[i].0
                && counted(s2[j], lo2, hi2, p, false) && value_of(s2[j].1, false) == value_of(s1[i].1, true) by {
            let k = s1[i].0;
            lemma_entries_map_at(s1, i);
            assert(m1.contains_key(k));
            assert(table@.contains_key(k));
            let row = table@[k]@;
            assert(s1[i].1 == row);
            lemma_grade_layout(row);
            let x = col_key_spec(k, 0);
            assert(m2.contains_key(x));
            assert(has_key(s2, x));
            let j = choose|j: int| 0 <= j < s2.len() && #[trigger] s2[j].0 == x;
            lemma_entries_map_at(s2, j);
            assert(s2[j].1 == row_columns_spec(row)[0]);
            lemma_lex_common_prefix(p, k, k_start);
            lemma_lex_common_prefix(p, k, k_end);
            assert(p.is_prefix_of(x)) by {
                assert(p =~= x.subrange(0, 5));
            }
            assert(in_scope(s2[j].0, lo2, hi2, p));
        }
    }
    assert(counted_backward(s1, k_start, Some(k_end), empty, true, s2, lo2, hi2, p, false, p)) by {
        reveal(counted_backward);
        assert forall|j: int| #![trigger s2[j]] 0 <= j < s2.len() && counted(s2[j], lo2, hi2, p, false)
            implies exists|i: int| #![trigger s1[i]] 0 <= i < s1.len() && counted(s1[i], k_start, Some(k_end), empty, true)
                && s2[j].0 == p + s1[i].0 by {
            let x = s2[j].0;
            assert(p.is_prefix_of(x));
            let k = x.skip(5);
            assert(x =~= p + k) by {
                assert(p =~= x.subrange(0, 5));
            }
            lemma_entries_map_at(s2, j);
            assert(m2.contains_key(x));
            assert(table@.contains_key(k));
            assert(m1.contains_key(k));
            assert(has_key(s1, k));
            let i = choose|i: int| 0 <= i < s1.len() && #[trigger] s1[i].0 == k;
            lemma_entries_map_at(s1, i);
            let row = table@[k]@;
            assert(s1[i].1 == row);
            lemma_grade_layout(row);
            assert(s2[j].1 == row_columns_spec(row)[0]);
            lemma_lex_common_prefix(p, k, k_start);
            lemma_lex_common_prefix(p, k, k_end);
            assert(empty.is_prefix_of(k)) by {
                assert(empty =~= k.subrange(0, 0));
            }
            assert(in_scope(s1[i].0, k_start, Some(k_end), empty));
        }
    }
    lemma_stats_transfer(s1, k_start, Some(k_end), empty, true, s2, lo2, hi2, p, false, p);
}

/// Rows written to an overlay and flushed answer analytical queries from
/// column 0 as the same rows in a row table do: after a flush of a
/// two-column overlay whose level 1 holds exactly the table's rows, all of
/// the grade layout (any grade, any payload), into a base store without
/// column-0 entries, every key range has the same sum, sum of squares and
/// count of grades.
pub proof fn lemma_flushed_rows_match_row_scan(
    before: &OverlayTree,
    after: &OverlayTree,
    table: &ByteMap<Vec<u8>>,
    k_start: Seq<u8>,
    k_end: Seq<u8>,
)
    requires
        before.wf(),
        after.wf(),
        table.wf(),
        after.base_view() == flush_spec(before.base_view(), before.l1_entries(), before.spec_columns()),
        before.spec_columns() == 2,
        forall|k: Seq<u8>| #[trigger] before.l1_view().contains_key(k) == table@.contains_key(k),
        forall|k: Seq<u8>| #[trigger] table@.contains_key(k) ==> before.l1_view()[k] == Some(table@[k]@),
        forall|k: Seq<u8>| #[trigger] table@.contains_key(k) ==> grade_layout(table@[k]@),
        forall|x: Seq<u8>| #[trigger] before.base_view().contains_key(x) ==> !col_prefix_spec(0).is_prefix_of(x),
    ensures
        after.column_range(0, k_start, k_end) == direct_stats(table, k_start, k_end),
{
    let l1 = before.l1_view();
    assert(rows_fit(l1, before.spec_columns())) by {
        assert forall|k: Seq<u8>| #[trigger] l1.contains_key(k) implies (l1[k] matches Some(row)
            ==> row_columns_spec(row).len() == before.spec_columns()) by {
            assert(table@.contains_key(k));
        }
    }
    assert forall|k: Seq<u8>| #[trigger] l1.contains_key(k) implies l1[k] is Some by {
        assert(table@.contains_key(k));
    }
    lemma_flush_first_columns(before);
    assert forall|k: Seq<u8>| #[trigger] table@.contains_key(k) implies after.base_view().contains_key(col_key_spec(k, 0))
        && after.base_view()[col_key_spec(k, 0)] == row_columns_spec(table@[k]@)[0] by {
        assert(l1.contains_key(k));
    }
    assert forall|x: Seq<u8>| #[trigger] after.base_view().contains_key(x) && col_prefix_spec(0).is_prefix_of(x)
        implies table@.contains_key(x.skip(5)) by {
        assert(l1.contains_key(x.skip(5)));
    }
    lemma_column_stats_match_row_scan(after, table, k_start, k_end);
}

} // verus!
