use vstd::prelude::*;

use crate::byte_map::ByteMap;
use crate::sysbench::{row_grade, row_grade_spec};
use crate::byte_map::{entries_map, has_key, keys_sorted, lemma_entries_map_at, lemma_entries_map_is};
use crate::bytes::{lemma_lex_common_prefix, lemma_lex_order, lemma_prefix_block_below, lemma_prefix_not_below, lex_lt};

verus! {

/// The number that a run of bytes spells in big-endian order.
pub open spec fn be_value(s: Seq<u8>) -> nat
    decreases s.len(),
{
    if s.len() == 0 {
        0
    } else {
        be_value(s.drop_last()) * 256 + (s.last() as nat)
    }
}

/// 256 to the power `n`.
pub open spec fn pow256(n: nat) -> nat
    decreases n,
{
    if n == 0 {
        1
    } else {
        256 * pow256((n - 1) as nat)
    }
}

/// A key lies in the scanned range: not below `lo`, below `hi` when there is
/// one, and beginning with `prefix`.
pub open spec fn in_scope(k: Seq<u8>, lo: Seq<u8>, hi: Option<Seq<u8>>, prefix: Seq<u8>) -> bool {
    &&& !lex_lt(k, lo)
    &&& match hi {
        Some(h) => lex_lt(k, h),
        None => true,
    }
    &&& prefix.is_prefix_of(k)
}

/// The number a stored value contributes: with `grade_rows`, the grade of
/// a whole row; otherwise an 8-byte big-endian column value.  `None` for a
/// value that contributes nothing.
pub open spec fn value_of(v: Seq<u8>, grade_rows: bool) -> Option<nat> {
    if grade_rows {
        match row_grade_spec(v) {
            Some(g) => Some(g as nat),
            None => None,
        }
    } else if v.len() == 8 {
        Some(be_value(v))
    } else {
        None
    }
}

/// An entry that an aggregate counts: in scope, with a value that
/// contributes.
pub open spec fn counted(e: (Seq<u8>, Seq<u8>), lo: Seq<u8>, hi: Option<Seq<u8>>, prefix: Seq<u8>, grade_rows: bool) -> bool {
    in_scope(e.0, lo, hi, prefix) && value_of(e.1, grade_rows) is Some
}

/// Sum, sum of squares and count of the values of the counted entries.
pub open spec fn range_stats(
    s: Seq<(Seq<u8>, Seq<u8>)>,
    lo: Seq<u8>,
    hi: Option<Seq<u8>>,
    prefix: Seq<u8>,
    grade_rows: bool,
) -> (nat, nat, nat)
    decreases s.len(),
{
    if s.len() == 0 {
        (0, 0, 0)
    } else {
        let p = range_stats(s.drop_last(), lo, hi, prefix, grade_rows);
        if counted(s.last(), lo, hi, prefix, grade_rows) {
            let v = value_of(s.last().1, grade_rows).unwrap();
            (p.0 + v, p.1 + v * v, p.2 + 1)
        } else {
            p
        }
    }
}

/// Powers of 256 grow with the exponent.
pub proof fn lemma_pow256_mono(a: nat, b: nat)
    requires
        a <= b,
    ensures
        pow256(a) <= pow256(b),
    decreases b,
{
    if a < b {
        lemma_pow256_mono(a, (b - 1) as nat);
    }
}

/// Decodes 8 bytes as a big-endian `u64`.
pub fn be_u64(v: &[u8]) -> (r: u64)
    requires
        v@.len() == 8,
    ensures
        r == be_value(v@),
{
    assert(pow256(8) == 0x1_0000_0000_0000_0000) by {
        reveal_with_fuel(pow256, 9);
    }
    let mut acc: u64 = 0;
    let mut i: usize = 0;
    assert(v@.take(0) =~= Seq::<u8>::empty());
    while i < 8
        invariant
            v@.len() == 8,
            i <= 8,
            acc == be_value(v@.take(i as int)),
            acc < pow256(i as nat),
            pow256(8) == 0x1_0000_0000_0000_0000,
        decreases 8 - i,
    {
        proof {
            lemma_pow256_mono((i + 1) as nat, 8);
            assert(v@.take(i + 1).drop_last() =~= v@.take(i as int));
            let a = acc as int;
            let p = pow256(i as nat) as int;
            assert(a * 256 + 255 < p * 256) by (nonlinear_arith)
                requires a < p;
        }
        acc = acc * 256 + v[i] as u64;
        i += 1;
    }
    assert(v@.take(8) =~= v@);
    acc
}

/// A run of `n` bytes spells a number below 256^n.
pub proof fn lemma_be_value_bound(s: Seq<u8>)
    ensures
        be_value(s) < pow256(s.len()),
    decreases s.len(),
{
    if s.len() > 0 {
        lemma_be_value_bound(s.drop_last());
        let a = be_value(s.drop_last()) as int;
        let p = pow256((s.len() - 1) as nat) as int;
        assert(a * 256 + 255 < p * 256) by (nonlinear_arith)
            requires a < p;
    }
}

/// Entries between positions `m` and `n` that lie out of scope add nothing.
pub proof fn lemma_stats_skip(
    s: Seq<(Seq<u8>, Seq<u8>)>,
    lo: Seq<u8>,
    hi: Option<Seq<u8>>,
    prefix: Seq<u8>,
    grade_rows: bool,
    m: int,
    n: int,
)
    requires
        0 <= m <= n <= s.len(),
        forall|i: int| m <= i < n ==> !in_scope(#[trigger] s[i].0, lo, hi, prefix),
    ensures
        range_stats(s.take(n), lo, hi, prefix, grade_rows) == range_stats(s.take(m), lo, hi, prefix, grade_rows),
    decreases n - m,
{
    if n > m {
        lemma_stats_skip(s, lo, hi, prefix, grade_rows, m, n - 1);
        assert(s.take(n).drop_last() =~= s.take(n - 1));
        assert(s.take(n).last() == s[n - 1]);
    }
}

/// A prefix of a run never counts more than the run.
pub proof fn lemma_stats_mono(
    s: Seq<(Seq<u8>, Seq<u8>)>,
    lo: Seq<u8>,
    hi: Option<Seq<u8>>,
    prefix: Seq<u8>,
    grade_rows: bool,
    m: int,
)
    requires
        0 <= m <= s.len(),
    ensures
        range_stats(s.take(m), lo, hi, prefix, grade_rows).0 <= range_stats(s, lo, hi, prefix, grade_rows).0,
        range_stats(s.take(m), lo, hi, prefix, grade_rows).1 <= range_stats(s, lo, hi, prefix, grade_rows).1,
        range_stats(s.take(m), lo, hi, prefix, grade_rows).2 <= range_stats(s, lo, hi, prefix, grade_rows).2,
    decreases s.len() - m,
{
    if m < s.len() {
        lemma_stats_mono(s, lo, hi, prefix, grade_rows, m + 1);
        assert(s.take(m + 1).drop_last() =~= s.take(m));
    } else {
        assert(s.take(m) =~= s);
    }
}

/// Scans a sorted run of entries from the first key not below `lo`, and sums
/// the big-endian values of the counted entries; with `squares`, also their
/// squares.  `None` when the sum of squares does not fit in a `u128`.
pub fn scan_stats(
    map: &ByteMap<Vec<u8>>,
    lo: &[u8],
    hi: Option<&[u8]>,
    prefix: &[u8],
    grade_rows: bool,
    squares: bool,
) -> (r: Option<(u128, u128, u64)>)
    requires
        map.wf(),
        prefix@.is_prefix_of(lo@),
    ensures
        ({
            let st = range_stats(map_entries(map), lo@, opt_view(hi), prefix@, grade_rows);
            &&& r is None <==> (squares && st.1 > u128::MAX)
            &&& r matches Some(t) ==> {
                &&& t.0 == st.0
                &&& t.2 == st.2
                &&& squares ==> t.1 == st.1
            }
        }),
{
    let ghost s = map_entries(map);
    let ghost h = opt_view(hi);
    proof {
        lemma_lex_order();
        lemma_prefix_not_below(prefix@, lo@);
    }
    let n = map.len();
    let mut i: usize = map.lower_bound(lo);
    assert forall|j: int| 0 <= j < n implies #[trigger] s[j].0 == map.entries()[j].0 by {}
    proof {
        lemma_lex_order();
        assert forall|j: int| 0 <= j < i implies !in_scope(#[trigger] s[j].0, lo@, h, prefix@) by {
            assert(lex_lt(s[j].0, lo@));
        }
        lemma_stats_skip(s, lo@, h, prefix@, grade_rows, 0, i as int);
        assert(s.take(0) =~= Seq::<(Seq<u8>, Seq<u8>)>::empty());
    }
    let ghost start = i;
    let mut sum: u128 = 0;
    let mut sum_sq: u128 = 0;
    let mut count: u64 = 0;
    loop
        invariant_except_break
            n == map.spec_len(),
            n == s.len(),
            map.wf(),
            start <= i <= n,
            s == map_entries(map),
            forall|j: int, k: int| 0 <= j < k < n ==> lex_lt(#[trigger] s[j].0, #[trigger] s[k].0),
            map.wf(),
            forall|j: int| start <= j < n ==> !lex_lt(#[trigger] s[j].0, lo@),
            !lex_lt(lo@, prefix@),
            prefix@.is_prefix_of(lo@),
            h == opt_view(hi),
            sum == range_stats(s.take(i as int), lo@, h, prefix@, grade_rows).0,
            count == range_stats(s.take(i as int), lo@, h, prefix@, grade_rows).2,
            squares ==> sum_sq == range_stats(s.take(i as int), lo@, h, prefix@, grade_rows).1,
            count <= i,
            sum <= count * 0xffff_ffff_ffff_ffffnat,
        ensures
            sum == range_stats(s, lo@, h, prefix@, grade_rows).0,
            count == range_stats(s, lo@, h, prefix@, grade_rows).2,
            squares ==> sum_sq == range_stats(s, lo@, h, prefix@, grade_rows).1,
        decreases n - i,
    {
        if i >= n {
            assert(s.take(i as int) =~= s);
            break;
        }
        proof {
            lemma_lex_order();
        }
        let k = map.key_at(i);
        assert(k@ == s[i as int].0);
        let mut stop = false;
        if let Some(hb) = hi {
            assert(h == Some(hb@));
            if !matches!(crate::bytes::compare_bytes(k.as_slice(), hb), crate::bytes::KeyOrder::Less) {
                stop = true;
                proof {
                    assert forall|j: int| i <= j < n implies !in_scope(#[trigger] s[j].0, lo@, h, prefix@) by {
                        if j > i {
                            assert(lex_lt(s[i as int].0, s[j].0));
                        }
                    }
                }
            }
        }
        if !stop && !crate::bytes::starts_with(k.as_slice(), prefix) {
            stop = true;
            proof {
                assert(!lex_lt(s[i as int].0, lo@));
                assert(!lex_lt(s[i as int].0, prefix@));
                assert forall|j: int| i <= j < n implies !in_scope(#[trigger] s[j].0, lo@, h, prefix@) by {
                    if j > i && prefix@.is_prefix_of(s[j].0) {
                        lemma_prefix_block_below(prefix@, s[j].0, s[i as int].0);
                        assert(lex_lt(s[i as int].0, s[j].0));
                    }
                }
            }
        }
        if stop {
            proof {
                lemma_stats_skip(s, lo@, h, prefix@, grade_rows, i as int, n as int);
                assert(s.take(n as int) =~= s);
            }
            break;
        }
        proof {
            assert(s.take(i + 1).drop_last() =~= s.take(i as int));
            assert(s.take(i + 1).last() == s[i as int]);
            assert(in_scope(s[i as int].0, lo@, h, prefix@));
        }
        let v = map.value_at(i);
        assert(v@ == s[i as int].1);
        let value: Option<u64> = if grade_rows {
            row_grade(v.as_slice())
        } else if v.len() == 8 {
            Some(be_u64(v.as_slice()))
        } else {
            None
        };
        assert(value matches Some(x) ==> value_of(v@, grade_rows) == Some(x as nat));
        assert(value is None ==> value_of(v@, grade_rows) is None);
        if let Some(x) = value {
            proof {
                lemma_stats_mono(s, lo@, h, prefix@, grade_rows, i + 1);
                let c = count as int;
                let m = 0xffff_ffff_ffff_ffffint;
                assert((c + 1) * m <= m * m) by (nonlinear_arith)
                    requires c + 1 <= m, 0 <= c;
                assert(sum + x <= (c + 1) * m) by (nonlinear_arith)
                    requires sum <= c * m, x <= m, 0 <= c;
            }
            sum = sum + x as u128;
            count = count + 1;
            if squares {
                assert((x as int) * (x as int) <= 0xffff_ffff_ffff_ffffint * 0xffff_ffff_ffff_ffffint) by (nonlinear_arith)
                    requires x <= 0xffff_ffff_ffff_ffffu64;
                let xx = (x as u128) * (x as u128);
                match sum_sq.checked_add(xx) {
                    Some(t) => {
                        sum_sq = t;
                    },
                    None => {
                        proof {
                            lemma_stats_mono(s, lo@, h, prefix@, grade_rows, i + 1);
                            assert(range_stats(s.take(i + 1), lo@, h, prefix@, grade_rows).1 == sum_sq + xx);
                        }
                        return None;
                    },
                }
            }
        }
        i += 1;
    }
    Some((sum, sum_sq, count))
}

/// The keys of the counted entries, in order.
pub open spec fn counted_keys(
    s: Seq<(Seq<u8>, Seq<u8>)>,
    lo: Seq<u8>,
    hi: Option<Seq<u8>>,
    prefix: Seq<u8>,
    grade_rows: bool,
) -> Seq<Seq<u8>>
    decreases s.len(),
{
    if s.len() == 0 {
        Seq::empty()
    } else {
        let p = counted_keys(s.drop_last(), lo, hi, prefix, grade_rows);
        if counted(s.last(), lo, hi, prefix, grade_rows) {
            p.push(s.last().0)
        } else {
            p
        }
    }
}

/// The values of the counted entries, in order.
pub open spec fn counted_values(
    s: Seq<(Seq<u8>, Seq<u8>)>,
    lo: Seq<u8>,
    hi: Option<Seq<u8>>,
    prefix: Seq<u8>,
    grade_rows: bool,
) -> Seq<nat>
    decreases s.len(),
{
    if s.len() == 0 {
        Seq::empty()
    } else {
        let p = counted_values(s.drop_last(), lo, hi, prefix, grade_rows);
        if counted(s.last(), lo, hi, prefix, grade_rows) {
            p.push(value_of(s.last().1, grade_rows).unwrap())
        } else {
            p
        }
    }
}

/// Sum, sum of squares and count of a run of numbers.
pub open spec fn seq_stats(v: Seq<nat>) -> (nat, nat, nat)
    decreases v.len(),
{
    if v.len() == 0 {
        (0, 0, 0)
    } else {
        let p = seq_stats(v.drop_last());
        (p.0 + v.last(), p.1 + v.last() * v.last(), p.2 + 1)
    }
}

proof fn lemma_stats_of_values(
    s: Seq<(Seq<u8>, Seq<u8>)>,
    lo: Seq<u8>,
    hi: Option<Seq<u8>>,
    prefix: Seq<u8>,
    grade_rows: bool,
)
    ensures
        range_stats(s, lo, hi, prefix, grade_rows) == seq_stats(counted_values(s, lo, hi, prefix, grade_rows)),
    decreases s.len(),
{
    if s.len() > 0 {
        lemma_stats_of_values(s.drop_last(), lo, hi, prefix, grade_rows);
        let p = counted_values(s.drop_last(), lo, hi, prefix, grade_rows);
        if counted(s.last(), lo, hi, prefix, grade_rows) {
            let x = value_of(s.last().1, grade_rows).unwrap();
            assert(p.push(x).drop_last() =~= p);
        }
    }
}

/// Some counted entry of `s` has key `k` and counts `v`.
pub open spec fn entry_for(
    s: Seq<(Seq<u8>, Seq<u8>)>,
    k: Seq<u8>,
    v: nat,
    lo: Seq<u8>,
    hi: Option<Seq<u8>>,
    prefix: Seq<u8>,
    grade_rows: bool,
) -> bool {
    exists|i: int| #![trigger s[i]]
        0 <= i < s.len() && s[i].0 == k && counted(s[i], lo, hi, prefix, grade_rows)
            && v == value_of(s[i].1, grade_rows).unwrap()
}

/// Each counted key comes from a counted entry of `s`, with that entry's
/// value.
#[verifier::opaque]
spec fn from_counted(
    s: Seq<(Seq<u8>, Seq<u8>)>,
    ck: Seq<Seq<u8>>,
    cv: Seq<nat>,
    lo: Seq<u8>,
    hi: Option<Seq<u8>>,
    prefix: Seq<u8>,
    grade_rows: bool,
) -> bool {
    forall|j: int| 0 <= j < ck.len() ==> #[trigger] entry_for(s, ck[j], cv[j], lo, hi, prefix, grade_rows)
}

/// The key of every counted entry of `s` is among the counted keys.
#[verifier::opaque]
spec fn covers_counted(
    s: Seq<(Seq<u8>, Seq<u8>)>,
    ck: Seq<Seq<u8>>,
    lo: Seq<u8>,
    hi: Option<Seq<u8>>,
    prefix: Seq<u8>,
    grade_rows: bool,
) -> bool {
    forall|i: int| #![trigger s[i]] 0 <= i < s.len() && counted(s[i], lo, hi, prefix, grade_rows) ==> ck.contains(s[i].0)
}

spec fn increasing(ck: Seq<Seq<u8>>) -> bool {
    forall|a: int, b: int| 0 <= a < b < ck.len() ==> lex_lt(#[trigger] ck[a], #[trigger] ck[b])
}

/// What the counted keys and values of a sorted run are.
proof fn lemma_counted(
    s: Seq<(Seq<u8>, Seq<u8>)>,
    lo: Seq<u8>,
    hi: Option<Seq<u8>>,
    prefix: Seq<u8>,
    grade_rows: bool,
)
    requires
        keys_sorted(s),
    ensures
        counted_keys(s, lo, hi, prefix, grade_rows).len() == counted_values(s, lo, hi, prefix, grade_rows).len(),
        from_counted(s, counted_keys(s, lo, hi, prefix, grade_rows), counted_values(s, lo, hi, prefix, grade_rows), lo, hi, prefix, grade_rows),
        covers_counted(s, counted_keys(s, lo, hi, prefix, grade_rows), lo, hi, prefix, grade_rows),
        increasing(counted_keys(s, lo, hi, prefix, grade_rows)),
    decreases s.len(),
{
    reveal(from_counted);
    reveal(covers_counted);
    let ck = counted_keys(s, lo, hi, prefix, grade_rows);
    let cv = counted_values(s, lo, hi, prefix, grade_rows);
    if s.len() > 0 {
        let s0 = s.drop_last();
        assert(keys_sorted(s0)) by {
            assert forall|i: int, j: int| 0 <= i < j < s0.len() implies lex_lt(#[trigger] s0[i].0, #[trigger] s0[j].0) by {
                assert(s0[i] == s[i] && s0[j] == s[j]);
            }
        }
        lemma_counted(s0, lo, hi, prefix, grade_rows);
        let ck0 = counted_keys(s0, lo, hi, prefix, grade_rows);
        let cv0 = counted_values(s0, lo, hi, prefix, grade_rows);
        let n = s.len() - 1;
        assert forall|j: int| 0 <= j < ck.len() implies #[trigger] entry_for(s, ck[j], cv[j], lo, hi, prefix, grade_rows) by {
            if j < ck0.len() {
                assert(ck[j] == ck0[j] && cv[j] == cv0[j]);
                assert(entry_for(s0, ck0[j], cv0[j], lo, hi, prefix, grade_rows));
                let i = choose|i: int| #![trigger s0[i]] 0 <= i < s0.len() && s0[i].0 == ck0[j]
                    && counted(s0[i], lo, hi, prefix, grade_rows) && cv0[j] == value_of(s0[i].1, grade_rows).unwrap();
                assert(s0[i] == s[i]);
            } else {
                assert(counted(s.last(), lo, hi, prefix, grade_rows));
                assert(ck[j] == s.last().0);
                assert(cv[j] == value_of(s.last().1, grade_rows).unwrap());
                assert(s[n] == s.last());
            }
        }
        assert forall|i: int| #![trigger s[i]] 0 <= i < s.len() && counted(s[i], lo, hi, prefix, grade_rows)
            implies ck.contains(s[i].0) by {
            if i < n {
                assert(s0[i] == s[i]);
                assert(ck0.contains(s0[i].0));
                let m = choose|m: int| 0 <= m < ck0.len() && ck0[m] == s0[i].0;
                assert(ck[m] == ck0[m]);
            } else {
                assert(ck[ck.len() - 1] == s.last().0);
            }
        }
        assert forall|a: int, b: int| 0 <= a < b < ck.len() implies lex_lt(#[trigger] ck[a], #[trigger] ck[b]) by {
            if b < ck0.len() {
                assert(ck[a] == ck0[a] && ck[b] == ck0[b]);
            } else {
                assert(ck[a] == ck0[a]);
                assert(entry_for(s0, ck0[a], cv0[a], lo, hi, prefix, grade_rows));
                let i = choose|i: int| #![trigger s0[i]] 0 <= i < s0.len() && s0[i].0 == ck0[a]
                    && counted(s0[i], lo, hi, prefix, grade_rows) && cv0[a] == value_of(s0[i].1, grade_rows).unwrap();
                assert(s0[i] == s[i]);
                assert(lex_lt(s[i].0, s[n].0));
            }
        }
    } else {
        assert(ck.len() == 0);
    }
}

/// Two increasing runs of strings with the same members are the same run.
proof fn lemma_sorted_unique(a: Seq<Seq<u8>>, b: Seq<Seq<u8>>)
    requires
        forall|i: int, j: int| 0 <= i < j < a.len() ==> lex_lt(#[trigger] a[i], #[trigger] a[j]),
        forall|i: int, j: int| 0 <= i < j < b.len() ==> lex_lt(#[trigger] b[i], #[trigger] b[j]),
        forall|x: Seq<u8>| a.contains(x) == b.contains(x),
    ensures
        a == b,
    decreases a.len(),
{
    lemma_lex_order();
    if a.len() == 0 {
        if b.len() > 0 {
            assert(b.contains(b[0]));
        }
        assert(a =~= b);
    } else {
        assert(a.contains(a[0]));
        let x = a.last();
        let y = b.last();
        assert(a.contains(x)) by {
            assert(a[a.len() - 1] == x);
        }
        assert(b.contains(y)) by {
            assert(b[b.len() - 1] == y);
        }
        let k = choose|k: int| 0 <= k < b.len() && b[k] == x;
        let m = choose|m: int| 0 <= m < a.len() && a[m] == y;
        if k < b.len() - 1 {
            assert(lex_lt(b[k], b[b.len() - 1]));
            if m < a.len() - 1 {
                assert(lex_lt(a[m], a[a.len() - 1]));
            }
        }
        assert(x == y);
        let a0 = a.drop_last();
        let b0 = b.drop_last();
        assert forall|z: Seq<u8>| a0.contains(z) == b0.contains(z) by {
            if a0.contains(z) {
                let i = choose|i: int| 0 <= i < a0.len() && a0[i] == z;
                assert(a[i] == z);
                assert(lex_lt(a[i], a[a.len() - 1]));
                assert(b.contains(z));
                let j = choose|j: int| 0 <= j < b.len() && b[j] == z;
                assert(j != b.len() - 1);
                assert(b0[j] == z);
            }
            if b0.contains(z) {
                let i = choose|i: int| 0 <= i < b0.len() && b0[i] == z;
                assert(b[i] == z);
                assert(lex_lt(b[i], b[b.len() - 1]));
                assert(a.contains(z));
                let j = choose|j: int| 0 <= j < a.len() && a[j] == z;
                assert(j != a.len() - 1);
                assert(a0[j] == z);
            }
        }
        lemma_sorted_unique(a0, b0);
        assert(a =~= a0.push(x));
        assert(b =~= b0.push(y));
    }
}

/// Every counted entry of the first run has a counted entry in the second
/// under `p` followed by its key, with the same value counted.
#[verifier::opaque]
pub open spec fn counted_forward(
    s1: Seq<(Seq<u8>, Seq<u8>)>,
    lo1: Seq<u8>,
    hi1: Option<Seq<u8>>,
    pre1: Seq<u8>,
    gr1: bool,
    s2: Seq<(Seq<u8>, Seq<u8>)>,
    lo2: Seq<u8>,
    hi2: Option<Seq<u8>>,
    pre2: Seq<u8>,
    gr2: bool,
    p: Seq<u8>,
) -> bool {
    forall|i: int| #![trigger s1[i]] 0 <= i < s1.len() && counted(s1[i], lo1, hi1, pre1, gr1) ==> exists|j: int|
        #![trigger s2[j]]
        0 <= j < s2.len() && s2[j].0 == p + s1[i].0 && counted(s2[j], lo2, hi2, pre2, gr2)
            && value_of(s2[j].1, gr2) == value_of(s1[i].1, gr1)
}

/// Every counted entry of the second run is, under `p`, the key of a
/// counted entry of the first.
#[verifier::opaque]
pub open spec fn counted_backward(
    s1: Seq<(Seq<u8>, Seq<u8>)>,
    lo1: Seq<u8>,
    hi1: Option<Seq<u8>>,
    pre1: Seq<u8>,
    gr1: bool,
    s2: Seq<(Seq<u8>, Seq<u8>)>,
    lo2: Seq<u8>,
    hi2: Option<Seq<u8>>,
    pre2: Seq<u8>,
    gr2: bool,
    p: Seq<u8>,
) -> bool {
    forall|j: int| #![trigger s2[j]] 0 <= j < s2.len() && counted(s2[j], lo2, hi2, pre2, gr2) ==> exists|i: int|
        #![trigger s1[i]]
        0 <= i < s1.len() && counted(s1[i], lo1, hi1, pre1, gr1) && s2[j].0 == p + s1[i].0
}

proof fn lemma_transfer_forward(
    s1: Seq<(Seq<u8>, Seq<u8>)>,
    lo1: Seq<u8>,
    hi1: Option<Seq<u8>>,
    pre1: Seq<u8>,
    gr1: bool,
    s2: Seq<(Seq<u8>, Seq<u8>)>,
    lo2: Seq<u8>,
    hi2: Option<Seq<u8>>,
    pre2: Seq<u8>,
    gr2: bool,
    p: Seq<u8>,
    x: Seq<u8>,
)
    requires
        counted_forward(s1, lo1, hi1, pre1, gr1, s2, lo2, hi2, pre2, gr2, p),
        from_counted(s1, counted_keys(s1, lo1, hi1, pre1, gr1), counted_values(s1, lo1, hi1, pre1, gr1), lo1, hi1, pre1, gr1),
        covers_counted(s2, counted_keys(s2, lo2, hi2, pre2, gr2), lo2, hi2, pre2, gr2),
    ensures
        counted_keys(s1, lo1, hi1, pre1, gr1).map_values(|k: Seq<u8>| p + k).contains(x)
            ==> counted_keys(s2, lo2, hi2, pre2, gr2).contains(x),
{
    reveal(counted_forward);
    reveal(from_counted);
    reveal(covers_counted);
    let ck1 = counted_keys(s1, lo1, hi1, pre1, gr1);
    let cv1 = counted_values(s1, lo1, hi1, pre1, gr1);
    let g = ck1.map_values(|k: Seq<u8>| p + k);
    if g.contains(x) {
        let m = choose|m: int| 0 <= m < g.len() && g[m] == x;
        assert(g[m] == p + ck1[m]);
        assert(entry_for(s1, ck1[m], cv1[m], lo1, hi1, pre1, gr1));
        let i = choose|i: int| #![trigger s1[i]] 0 <= i < s1.len() && s1[i].0 == ck1[m]
            && counted(s1[i], lo1, hi1, pre1, gr1) && cv1[m] == value_of(s1[i].1, gr1).unwrap();
        let j = choose|j: int| #![trigger s2[j]] 0 <= j < s2.len() && s2[j].0 == p + s1[i].0
            && counted(s2[j], lo2, hi2, pre2, gr2) && value_of(s2[j].1, gr2) == value_of(s1[i].1, gr1);
        assert(s2[j].0 == x);
    }
}

proof fn lemma_transfer_backward(
    s1: Seq<(Seq<u8>, Seq<u8>)>,
    lo1: Seq<u8>,
    hi1: Option<Seq<u8>>,
    pre1: Seq<u8>,
    gr1: bool,
    s2: Seq<(Seq<u8>, Seq<u8>)>,
    lo2: Seq<u8>,
    hi2: Option<Seq<u8>>,
    pre2: Seq<u8>,
    gr2: bool,
    p: Seq<u8>,
    x: Seq<u8>,
)
    requires
        counted_backward(s1, lo1, hi1, pre1, gr1, s2, lo2, hi2, pre2, gr2, p),
        from_counted(s2, counted_keys(s2, lo2, hi2, pre2, gr2), counted_values(s2, lo2, hi2, pre2, gr2), lo2, hi2, pre2, gr2),
        covers_counted(s1, counted_keys(s1, lo1, hi1, pre1, gr1), lo1, hi1, pre1, gr1),
    ensures
        counted_keys(s2, lo2, hi2, pre2, gr2).contains(x)
            ==> counted_keys(s1, lo1, hi1, pre1, gr1).map_values(|k: Seq<u8>| p + k).contains(x),
{
    reveal(counted_backward);
    reveal(from_counted);
    reveal(covers_counted);
    let ck1 = counted_keys(s1, lo1, hi1, pre1, gr1);
    let ck2 = counted_keys(s2, lo2, hi2, pre2, gr2);
    let cv2 = counted_values(s2, lo2, hi2, pre2, gr2);
    let g = ck1.map_values(|k: Seq<u8>| p + k);
    if ck2.contains(x) {
        let m = choose|m: int| 0 <= m < ck2.len() && ck2[m] == x;
        assert(entry_for(s2, ck2[m], cv2[m], lo2, hi2, pre2, gr2));
        let j = choose|j: int| #![trigger s2[j]] 0 <= j < s2.len() && s2[j].0 == ck2[m]
            && counted(s2[j], lo2, hi2, pre2, gr2) && cv2[m] == value_of(s2[j].1, gr2).unwrap();
        let i = choose|i: int| #![trigger s1[i]] 0 <= i < s1.len() && counted(s1[i], lo1, hi1, pre1, gr1)
            && s2[j].0 == p + s1[i].0;
        assert(ck1.contains(s1[i].0));
        let q = choose|q: int| 0 <= q < ck1.len() && ck1[q] == s1[i].0;
        assert(g[q] == x);
    }
}

proof fn lemma_transfer_value_at(
    s1: Seq<(Seq<u8>, Seq<u8>)>,
    lo1: Seq<u8>,
    hi1: Option<Seq<u8>>,
    pre1: Seq<u8>,
    gr1: bool,
    s2: Seq<(Seq<u8>, Seq<u8>)>,
    lo2: Seq<u8>,
    hi2: Option<Seq<u8>>,
    pre2: Seq<u8>,
    gr2: bool,
    p: Seq<u8>,
    m: int,
)
    requires
        keys_sorted(s2),
        counted_forward(s1, lo1, hi1, pre1, gr1, s2, lo2, hi2, pre2, gr2, p),
        from_counted(s1, counted_keys(s1, lo1, hi1, pre1, gr1), counted_values(s1, lo1, hi1, pre1, gr1), lo1, hi1, pre1, gr1),
        from_counted(s2, counted_keys(s2, lo2, hi2, pre2, gr2), counted_values(s2, lo2, hi2, pre2, gr2), lo2, hi2, pre2, gr2),
        counted_keys(s1, lo1, hi1, pre1, gr1).map_values(|k: Seq<u8>| p + k) == counted_keys(s2, lo2, hi2, pre2, gr2),
        0 <= m < counted_keys(s1, lo1, hi1, pre1, gr1).len(),
    ensures
        counted_values(s1, lo1, hi1, pre1, gr1)[m] == counted_values(s2, lo2, hi2, pre2, gr2)[m],
{
    reveal(counted_forward);
    reveal(from_counted);
    lemma_lex_order();
    let ck1 = counted_keys(s1, lo1, hi1, pre1, gr1);
    let cv1 = counted_values(s1, lo1, hi1, pre1, gr1);
    let ck2 = counted_keys(s2, lo2, hi2, pre2, gr2);
    let cv2 = counted_values(s2, lo2, hi2, pre2, gr2);
    let g = ck1.map_values(|k: Seq<u8>| p + k);
    assert(entry_for(s1, ck1[m], cv1[m], lo1, hi1, pre1, gr1));
    let i = choose|i: int| #![trigger s1[i]] 0 <= i < s1.len() && s1[i].0 == ck1[m]
        && counted(s1[i], lo1, hi1, pre1, gr1) && cv1[m] == value_of(s1[i].1, gr1).unwrap();
    assert(g[m] == ck2[m]);
    assert(entry_for(s2, ck2[m], cv2[m], lo2, hi2, pre2, gr2));
    let j = choose|j: int| #![trigger s2[j]] 0 <= j < s2.len() && s2[j].0 == ck2[m]
        && counted(s2[j], lo2, hi2, pre2, gr2) && cv2[m] == value_of(s2[j].1, gr2).unwrap();
    let j2 = choose|j2: int| #![trigger s2[j2]] 0 <= j2 < s2.len() && s2[j2].0 == p + s1[i].0
        && counted(s2[j2], lo2, hi2, pre2, gr2) && value_of(s2[j2].1, gr2) == value_of(s1[i].1, gr1);
    if j2 < j {
        assert(lex_lt(s2[j2].0, s2[j].0));
    } else if j < j2 {
        assert(lex_lt(s2[j].0, s2[j2].0));
    }
}

/// Two sorted runs give the same statistics when their counted entries
/// correspond one to one, the key of each in the second run being `p`
/// followed by its key in the first, with the same value counted.
pub proof fn lemma_stats_transfer(
    s1: Seq<(Seq<u8>, Seq<u8>)>,
    lo1: Seq<u8>,
    hi1: Option<Seq<u8>>,
    pre1: Seq<u8>,
    gr1: bool,
    s2: Seq<(Seq<u8>, Seq<u8>)>,
    lo2: Seq<u8>,
    hi2: Option<Seq<u8>>,
    pre2: Seq<u8>,
    gr2: bool,
    p: Seq<u8>,
)
    requires
        keys_sorted(s1),
        keys_sorted(s2),
        counted_forward(s1, lo1, hi1, pre1, gr1, s2, lo2, hi2, pre2, gr2, p),
        counted_backward(s1, lo1, hi1, pre1, gr1, s2, lo2, hi2, pre2, gr2, p),
    ensures
        range_stats(s1, lo1, hi1, pre1, gr1) == range_stats(s2, lo2, hi2, pre2, gr2),
{
    lemma_counted(s1, lo1, hi1, pre1, gr1);
    lemma_counted(s2, lo2, hi2, pre2, gr2);
    let ck1 = counted_keys(s1, lo1, hi1, pre1, gr1);
    let cv1 = counted_values(s1, lo1, hi1, pre1, gr1);
    let ck2 = counted_keys(s2, lo2, hi2, pre2, gr2);
    let cv2 = counted_values(s2, lo2, hi2, pre2, gr2);
    let g = ck1.map_values(|k: Seq<u8>| p + k);
    assert forall|a: int, b: int| 0 <= a < b < g.len() implies lex_lt(#[trigger] g[a], #[trigger] g[b]) by {
        assert(lex_lt(ck1[a], ck1[b]));
        lemma_lex_common_prefix(p, ck1[a], ck1[b]);
    }
    assert forall|x: Seq<u8>| g.contains(x) == ck2.contains(x) by {
        lemma_transfer_forward(s1, lo1, hi1, pre1, gr1, s2, lo2, hi2, pre2, gr2, p, x);
        lemma_transfer_backward(s1, lo1, hi1, pre1, gr1, s2, lo2, hi2, pre2, gr2, p, x);
    }
    lemma_sorted_unique(g, ck2);
    assert forall|m: int| 0 <= m < cv1.len() implies cv1[m] == cv2[m] by {
        lemma_transfer_value_at(s1, lo1, hi1, pre1, gr1, s2, lo2, hi2, pre2, gr2, p, m);
    }
    assert(cv1 =~= cv2);
    lemma_stats_of_values(s1, lo1, hi1, pre1, gr1);
    lemma_stats_of_values(s2, lo2, hi2, pre2, gr2);
}

/// The entries of an ordered byte map, values viewed.
pub open spec fn map_entries(map: &ByteMap<Vec<u8>>) -> Seq<(Seq<u8>, Seq<u8>)> {
    map.entries().map_values(|e: (Seq<u8>, Vec<u8>)| (e.0, e.1@))
}

/// The entries of a well-formed byte map are sorted and stand for its map,
/// values viewed.
pub proof fn lemma_map_entries(map: &ByteMap<Vec<u8>>)
    requires
        map.wf(),
    ensures
        keys_sorted(map_entries(map)),
        entries_map(map_entries(map)) == map@.map_values(|v: Vec<u8>| v@),
{
    lemma_lex_order();
    let s = map.entries();
    let t = map_entries(map);
    assert forall|i: int, j: int| 0 <= i < j < t.len() implies lex_lt(#[trigger] t[i].0, #[trigger] t[j].0) by {
        assert(t[i].0 == s[i].0 && t[j].0 == s[j].0);
    }
    let m = map@.map_values(|v: Vec<u8>| v@);
    assert forall|i: int| 0 <= i < t.len() implies #[trigger] m.contains_key(t[i].0) && m[t[i].0] == t[i].1 by {
        lemma_entries_map_at(s, i);
    }
    assert forall|k: Seq<u8>| #[trigger] m.contains_key(k) implies has_key(t, k) by {
        let j = choose|j: int| 0 <= j < s.len() && #[trigger] s[j].0 == k;
        assert(t[j].0 == k);
    }
    lemma_entries_map_is(t, m);
}

/// An optional byte slice, viewed.
pub open spec fn opt_view(o: Option<&[u8]>) -> Option<Seq<u8>> {
    match o {
        Some(x) => Some(x@),
        None => None,
    }
}

} // verus!
