use vstd::prelude::*;

use crate::aggregate::pow256;

verus! {

/// The `k` low bytes of `n`, least significant first.
pub open spec fn le_bytes(n: nat, k: nat) -> Seq<u8>
    decreases k,
{
    if k == 0 {
        Seq::empty()
    } else {
        le_bytes(n, (k - 1) as nat).push(((n / pow256((k - 1) as nat)) % 256) as u8)
    }
}

/// The number that bytes spell, least significant first.
pub open spec fn le_value(s: Seq<u8>) -> nat
    decreases s.len(),
{
    if s.len() == 0 {
        0
    } else {
        le_value(s.drop_last()) + (s.last() as nat) * pow256((s.len() - 1) as nat)
    }
}

/// Powers of 256 are positive.
pub proof fn lemma_pow256_pos(n: nat)
    ensures
        pow256(n) > 0,
    decreases n,
{
    if n > 0 {
        lemma_pow256_pos((n - 1) as nat);
    }
}

/// Decoding little-endian bytes gives back the number they were cut from,
/// modulo the range they can hold.
pub proof fn lemma_le_roundtrip(n: nat, k: nat)
    ensures
        le_bytes(n, k).len() == k,
        le_value(le_bytes(n, k)) == n % pow256(k),
    decreases k,
{
    if k == 0 {
        assert(n % 1 == 0);
    } else {
        lemma_le_roundtrip(n, (k - 1) as nat);
        let p = pow256((k - 1) as nat);
        lemma_pow256_pos((k - 1) as nat);
        assert(le_bytes(n, k).drop_last() == le_bytes(n, (k - 1) as nat));
        vstd::arithmetic::div_mod::lemma_mod_breakdown(n as int, p as int, 256);
        assert(pow256(k) == p * 256) by {
            vstd::arithmetic::mul::lemma_mul_is_commutative(p as int, 256);
        }
        let b = (n / p) % 256;
        assert(((b as u8) as nat) == b);
        vstd::arithmetic::mul::lemma_mul_is_commutative(b as int, p as int);
    }
}

/// The `k` low bytes of `n`, least significant first.
pub fn to_le_bytes(n: u64, k: usize) -> (r: Vec<u8>)
    requires
        k <= 8,
    ensures
        r@ == le_bytes(n as nat, k as nat),
{
    let mut out: Vec<u8> = Vec::new();
    let mut x: u64 = n;
    let mut i: usize = 0;
    assert(pow256(0) == 1);
    assert(n as nat / 1 == n as nat);
    while i < k
        invariant
            i <= k,
            out@ == le_bytes(n as nat, i as nat),
            x == n as nat / pow256(i as nat),
        decreases k - i,
    {
        proof {
            lemma_pow256_pos(i as nat);
            vstd::arithmetic::div_mod::lemma_div_denominator(n as int, pow256(i as nat) as int, 256);
            assert(pow256((i + 1) as nat) == pow256(i as nat) * 256) by {
                vstd::arithmetic::mul::lemma_mul_is_commutative(pow256(i as nat) as int, 256);
            }
        }
        out.push((x % 256) as u8);
        x = x / 256;
        i += 1;
    }
    out
}

/// A run of `n` bytes read little-endian spells a number below 256^n.
pub proof fn lemma_le_value_bound(s: Seq<u8>)
    ensures
        le_value(s) < pow256(s.len()),
    decreases s.len(),
{
    if s.len() > 0 {
        lemma_le_value_bound(s.drop_last());
        let a = le_value(s.drop_last()) as int;
        let p = pow256((s.len() - 1) as nat) as int;
        let x = s.last() as int;
        assert(x * p <= 255 * p) by (nonlinear_arith)
            requires 0 <= x < 256, p >= 0;
        assert(pow256(s.len()) == p * 256) by {
            vstd::arithmetic::mul::lemma_mul_is_commutative(p, 256);
        }
    }
}

/// Decodes up to 8 little-endian bytes.
pub fn from_le(b: &[u8]) -> (r: u64)
    requires
        b@.len() <= 8,
    ensures
        r == le_value(b@),
{
    let n = b.len();
    let mut acc: u128 = 0;
    let mut m: u128 = 1;
    let mut i: usize = 0;
    assert(b@.take(0) =~= Seq::<u8>::empty());
    assert(pow256(8) == 0x1_0000_0000_0000_0000) by {
        reveal_with_fuel(pow256, 9);
    }
    while i < n
        invariant
            n == b@.len(),
            n <= 8,
            i <= n,
            acc == le_value(b@.take(i as int)),
            acc < m,
            m == pow256(i as nat),
            pow256(8) == 0x1_0000_0000_0000_0000,
        decreases n - i,
    {
        proof {
            assert(b@.take(i + 1).drop_last() =~= b@.take(i as int));
            crate::aggregate::lemma_pow256_mono((i + 1) as nat, 8);
            let a = acc as int;
            let mm = m as int;
            let x = b@[i as int] as int;
            assert(x * mm <= 255 * mm) by (nonlinear_arith)
                requires 0 <= x < 256, mm >= 0;
            assert(a + x * mm < mm * 256);
            assert(pow256((i + 1) as nat) == mm * 256) by {
                vstd::arithmetic::mul::lemma_mul_is_commutative(mm, 256);
            }
        }
        acc = acc + (b[i] as u128) * m;
        m = m * 256;
        i += 1;
    }
    assert(b@.take(n as int) =~= b@);
    proof {
        crate::aggregate::lemma_pow256_mono(n as nat, 8);
    }
    acc as u64
}

} // verus!
