use vstd::prelude::*;

verus! {

/// `anyhow::Error`, the error a storage engine reports; opaque here.
#[verifier::external_type_specification]
#[verifier::external_body]
pub struct ExAnyhowError(anyhow::Error);

/// A key-value engine that the YCSB workloads drive.
pub trait KVEngine {
    /// Stores `value` under `key`.
    fn put(&self, key: &[u8], value: &[u8]) -> Result<(), anyhow::Error>;

    /// The value stored under `key`.
    fn get(&self, key: &[u8]) -> Result<Option<Vec<u8>>, anyhow::Error>;

    /// Up to `count` pairs from `start_key` on, in key order.
    fn scan(&self, start_key: &[u8], count: usize) -> Result<Vec<(Vec<u8>, Vec<u8>)>, anyhow::Error>;
}

/// One YCSB operation.
pub enum Operation {
    Read(u64),
    Update(u64, Vec<u8>),
    Insert(u64, Vec<u8>),
    Scan(u64, usize),
}

/// The shape of a YCSB run.
pub struct YcsbConfig {
    /// The workload letter: "a", "b" or "e".
    pub workload: String,
    pub record_count: usize,
    pub operation_count: usize,
    pub threads: usize,
    pub value_size: usize,
}

/// The decimal digits of `n`, most significant first.
pub open spec fn dec_digits(n: nat) -> Seq<u8>
    decreases n,
{
    if n < 10 {
        seq![(48 + n) as u8]
    } else {
        dec_digits(n / 10).push((48 + n % 10) as u8)
    }
}

/// The key of record `i`: `user` and `i` in decimal, zero-padded to 19
/// digits.
pub open spec fn ycsb_key_spec(i: nat) -> Seq<u8> {
    let d = dec_digits(i);
    let pad = if d.len() < 19 { (19 - d.len()) as nat } else { 0nat };
    seq![0x75u8, 0x73u8, 0x65u8, 0x72u8] + Seq::new(pad, |j: int| 0x30u8) + d
}

fn push_decimal(out: &mut Vec<u8>, n: u64)
    ensures
        final(out)@ == old(out)@ + dec_digits(n as nat),
    decreases n,
{
    if n >= 10 {
        push_decimal(out, n / 10);
    }
    let ghost before = out@;
    out.push((48 + n % 10) as u8);
    assert(before + seq![(48 + n % 10) as u8] =~= before.push((48 + n % 10) as u8));
    proof {
        if n >= 10 {
            assert(old(out)@ + dec_digits(n as nat) =~= (old(out)@ + dec_digits((n / 10) as nat)).push((48 + n % 10) as u8));
        } else {
            assert(old(out)@ + dec_digits(n as nat) =~= old(out)@.push((48 + n) as u8));
        }
    }
}

/// The key of record `i`.
pub fn ycsb_key(i: u64) -> (r: Vec<u8>)
    ensures
        r@ == ycsb_key_spec(i as nat),
{
    let mut digits: Vec<u8> = Vec::new();
    push_decimal(&mut digits, i);
    assert(digits@ =~= dec_digits(i as nat));
    let mut out: Vec<u8> = Vec::new();
    out.push(0x75u8);
    out.push(0x73u8);
    out.push(0x65u8);
    out.push(0x72u8);
    let ghost pad = if digits@.len() < 19 { (19 - digits@.len()) as nat } else { 0nat };
    let mut k: usize = 0;
    let target: usize = if digits.len() < 19 { 19 - digits.len() } else { 0 };
    while k < target
        invariant
            k <= target,
            target == pad,
            out@ == seq![0x75u8, 0x73u8, 0x65u8, 0x72u8] + Seq::new(k as nat, |j: int| 0x30u8),
        decreases target - k,
    {
        out.push(0x30u8);
        assert(out@ =~= seq![0x75u8, 0x73u8, 0x65u8, 0x72u8] + Seq::new((k + 1) as nat, |j: int| 0x30u8));
        k += 1;
    }
    let ghost head = out@;
    let mut j: usize = 0;
    while j < digits.len()
        invariant
            j <= digits@.len(),
            out@ == head + digits@.take(j as int),
        decreases digits@.len() - j,
    {
        out.push(digits[j]);
        assert(digits@.take(j + 1) =~= digits@.take(j as int).push(digits@[j as int]));
        j += 1;
    }
    assert(digits@.take(j as int) =~= digits@);
    out
}

/// Record `i` of a load with values of `value_size` bytes: the key
/// `ycsb_key(i)` and `value_size` zero bytes.
pub fn ycsb_record(i: u64, value_size: usize) -> (r: (Vec<u8>, Vec<u8>))
    ensures
        r.0@ == ycsb_key_spec(i as nat),
        r.1@ == Seq::new(value_size as nat, |k: int| 0u8),
{
    (ycsb_key(i), zeros(value_size))
}

/// Fills an engine with `record_count` records: record `i`, as
/// `ycsb_record` builds it, for `i` from 0 up, one write each; stops at the
/// first failed write.  With no record to write it makes no write and
/// succeeds; an error is only ever one that a write reported.
pub fn load_data<E: KVEngine>(engine: &E, record_count: usize, value_size: usize) -> (r: Result<(), anyhow::Error>)
    ensures
        record_count == 0 ==> r is Ok,
{
    let mut i: usize = 0;
    while i < record_count
        invariant
            i <= record_count,
        decreases record_count - i,
    {
        let (key_bytes, value_bytes) = ycsb_record(i as u64, value_size);
        match engine.put(key_bytes.as_slice(), value_bytes.as_slice()) {
            Ok(()) => {},
            Err(e) => {
                return Err(e);
            },
        }
        i += 1;
    }
    Ok(())
}

/// `n` zero bytes.
pub fn zeros(n: usize) -> (r: Vec<u8>)
    ensures
        r@ == Seq::new(n as nat, |i: int| 0u8),
{
    let mut v: Vec<u8> = Vec::new();
    let mut i: usize = 0;
    while i < n
        invariant
            i <= n,
            v@ == Seq::new(i as nat, |k: int| 0u8),
        decreases n - i,
    {
        v.push(0u8);
        assert(v@ =~= Seq::new((i + 1) as nat, |k: int| 0u8));
        i += 1;
    }
    v
}

} // verus!
