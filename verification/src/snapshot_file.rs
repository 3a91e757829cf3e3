use vstd::prelude::*;

use crate::aggregate::pow256;
use crate::le::{from_le, le_bytes, le_value, lemma_le_roundtrip, to_le_bytes};
use crate::snapshot::SnapshotError;

verus! {

/// The CRC-32 (IEEE) checksum of some bytes.
pub uninterp spec fn crc32_of(data: Seq<u8>) -> u32;

/// Computes the CRC-32 (IEEE) checksum of `data` with `crc32fast::hash`.
/// Trusted: the result is taken to be a function of the bytes alone, named
/// `crc32_of`; which checksum that is, is not stated.
#[verifier::external_body]
fn crc32(data: &[u8]) -> (r: u32)
    ensures
        r == crc32_of(data@),
{
    crc32fast::hash(data)
}

/// A snapshot file's bytes: the encoded snapshot, its length as 8
/// little-endian bytes, and the CRC-32 of the encoded snapshot as 4
/// little-endian bytes.
pub open spec fn frame_spec(body: Seq<u8>) -> Seq<u8> {
    body + le_bytes(body.len(), 8) + le_bytes(crc32_of(body) as nat, 4)
}

/// What reading a snapshot file gives: the encoded snapshot, when the file
/// is longer than its 12-byte trailer and the checksum matches; corruption
/// otherwise.  The length field is not checked.
pub open spec fn unframe_spec(buf: Seq<u8>) -> Result<Seq<u8>, SnapshotError> {
    if buf.len() <= 12 {
        Err(SnapshotError::Corruption)
    } else {
        let body = buf.take(buf.len() - 12);
        if le_value(buf.skip(buf.len() - 4)) == crc32_of(body) as nat {
            Ok(body)
        } else {
            Err(SnapshotError::Corruption)
        }
    }
}

/// Reading back a written snapshot file gives the encoded snapshot, for any
/// non-empty encoding.
pub proof fn lemma_unframe_frame(body: Seq<u8>)
    requires
        body.len() > 0,
    ensures
        unframe_spec(frame_spec(body)) == Ok::<Seq<u8>, SnapshotError>(body),
{
    assert(pow256(4) == 0x1_0000_0000) by {
        reveal_with_fuel(pow256, 5);
    }
    let f = frame_spec(body);
    let c = crc32_of(body) as nat;
    lemma_le_roundtrip(body.len(), 8);
    lemma_le_roundtrip(c, 4);
    assert(c % 0x1_0000_0000 == c);
    assert(f.len() == body.len() + 12);
    assert(f.take(f.len() - 12) =~= body);
    assert(f.skip(f.len() - 4) =~= le_bytes(c, 4));
    assert(le_value(f.skip(f.len() - 4)) == c);
    assert(crc32_of(f.take(f.len() - 12)) == crc32_of(body));
    assert(!(f.len() <= 12));
}

/// The bytes of a snapshot file for an encoded snapshot: the encoding, its
/// length, and its checksum.
pub fn frame_snapshot(body: &[u8]) -> (r: Vec<u8>)
    ensures
        r@ == frame_spec(body@),
{
    let crc = crc32(body);
    frame_with_checksum(body, crc)
}

/// The bytes of a snapshot file for an encoded snapshot whose checksum is
/// `crc`: the encoding, its length as 8 little-endian bytes, and `crc` as 4
/// little-endian bytes.
pub fn frame_with_checksum(body: &[u8], crc: u32) -> (r: Vec<u8>)
    ensures
        r@ == body@ + le_bytes(body@.len(), 8) + le_bytes(crc as nat, 4),
{
    let mut out = vstd::slice::slice_to_vec(body);
    let len_bytes = to_le_bytes(body.len() as u64, 8);
    let crc_bytes = to_le_bytes(crc as u64, 4);
    proof {
        lemma_le_roundtrip(body@.len(), 8);
        lemma_le_roundtrip(crc as nat, 4);
    }
    let ghost head = out@;
    let mut i: usize = 0;
    while i < 8
        invariant
            i <= 8,
            len_bytes@.len() == 8,
            out@ == head + len_bytes@.take(i as int),
        decreases 8 - i,
    {
        out.push(len_bytes[i]);
        assert(len_bytes@.take(i + 1) =~= len_bytes@.take(i as int).push(len_bytes@[i as int]));
        i += 1;
    }
    assert(len_bytes@.take(8) =~= len_bytes@);
    let ghost mid = out@;
    let mut j: usize = 0;
    while j < 4
        invariant
            j <= 4,
            crc_bytes@.len() == 4,
            out@ == mid + crc_bytes@.take(j as int),
        decreases 4 - j,
    {
        out.push(crc_bytes[j]);
        assert(crc_bytes@.take(j + 1) =~= crc_bytes@.take(j as int).push(crc_bytes@[j as int]));
        j += 1;
    }
    assert(crc_bytes@.take(4) =~= crc_bytes@);
    out
}

/// Checks the trailer of a snapshot file and gives back the encoded
/// snapshot.
pub fn unframe_snapshot(buf: &[u8]) -> (r: Result<Vec<u8>, SnapshotError>)
    ensures
        match unframe_spec(buf@) {
            Ok(body) => r matches Ok(v) && v@ == body,
            Err(e) => r == Err::<Vec<u8>, SnapshotError>(e),
        },
{
    let len = buf.len();
    if len <= 12 {
        return Err(SnapshotError::Corruption);
    }
    let body = vstd::slice::slice_subrange(buf, 0, len - 12);
    assert(body@ =~= buf@.take(len - 12));
    let crc_actual = crc32(body);
    check_trailer(buf, crc_actual)
}

/// The encoded snapshot of a snapshot file whose encoding has checksum
/// `crc_actual`: the file without its 12-byte trailer, when the file is
/// longer than the trailer and the trailer's last 4 bytes, little-endian,
/// are `crc_actual`; corruption otherwise.
pub fn check_trailer(buf: &[u8], crc_actual: u32) -> (r: Result<Vec<u8>, SnapshotError>)
    ensures
        buf@.len() > 12 && le_value(buf@.skip(buf@.len() - 4)) == crc_actual as nat
            ==> (r matches Ok(v) && v@ == buf@.take(buf@.len() - 12)),
        !(buf@.len() > 12 && le_value(buf@.skip(buf@.len() - 4)) == crc_actual as nat)
            ==> r == Err::<Vec<u8>, SnapshotError>(SnapshotError::Corruption),
{
    let len = buf.len();
    if len <= 12 {
        return Err(SnapshotError::Corruption);
    }
    let crc_expected = from_le(vstd::slice::slice_subrange(buf, len - 4, len));
    assert(buf@.subrange(len - 4, len as int) =~= buf@.skip(len - 4));
    if crc_expected != crc_actual as u64 {
        return Err(SnapshotError::Corruption);
    }
    let body = vstd::slice::slice_subrange(buf, 0, len - 12);
    assert(body@ =~= buf@.take(len - 12));
    Ok(vstd::slice::slice_to_vec(body))
}

} // verus!
