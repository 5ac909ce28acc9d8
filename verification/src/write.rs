//! Writers that append the wire encoding of each field to a growable
//! output buffer. Each writer's contract says exactly which bytes it
//! appends, in terms of the specification-level encoder in `model`.

use vstd::prelude::*;
use crate::model::{blob_enc, le16_bytes, le32_bytes, le64_bytes, seq_rev, varint_enc};

verus! {

/// Append a 16-bit integer, little-endian.
pub fn write_u16(out: &mut Vec<u8>, v: u16)
    ensures
        final(out)@ == old(out)@ + le16_bytes(v),
{
    out.push(v as u8);
    out.push((v >> 8) as u8);
    assert(out@ =~= old(out)@ + le16_bytes(v));
}

/// Append a 32-bit integer, little-endian.
pub fn write_u32(out: &mut Vec<u8>, v: u32)
    ensures
        final(out)@ == old(out)@ + le32_bytes(v),
{
    out.push(v as u8);
    out.push((v >> 8) as u8);
    out.push((v >> 16) as u8);
    out.push((v >> 24) as u8);
    assert(out@ =~= old(out)@ + le32_bytes(v));
}

/// Append a 64-bit integer, little-endian.
pub fn write_u64(out: &mut Vec<u8>, v: u64)
    ensures
        final(out)@ == old(out)@ + le64_bytes(v),
{
    out.push(v as u8);
    out.push((v >> 8) as u8);
    out.push((v >> 16) as u8);
    out.push((v >> 24) as u8);
    out.push((v >> 32) as u8);
    out.push((v >> 40) as u8);
    out.push((v >> 48) as u8);
    out.push((v >> 56) as u8);
    assert(out@ =~= old(out)@ + le64_bytes(v));
}

/// Append a compact-size integer in its canonical (narrowest) form. The
/// reader accepts wider forms; this writer never produces one.
pub fn write_compact_size(out: &mut Vec<u8>, v: u64)
    ensures
        final(out)@ == old(out)@ + varint_enc(v),
{
    if v <= 252 {
        out.push(v as u8);
        assert(out@ =~= old(out)@ + varint_enc(v));
    } else if v <= 0xFFFF {
        out.push(253);
        write_u16(out, v as u16);
        assert(out@ =~= old(out)@ + varint_enc(v));
    } else if v <= 0xFFFF_FFFF {
        out.push(254);
        write_u32(out, v as u32);
        assert(out@ =~= old(out)@ + varint_enc(v));
    } else {
        out.push(255);
        write_u64(out, v);
        assert(out@ =~= old(out)@ + varint_enc(v));
    }
}

/// Append a blob: its length as a canonical compact size, then its raw
/// bytes.
pub fn write_script(out: &mut Vec<u8>, b: &Vec<u8>)
    ensures
        final(out)@ == old(out)@ + blob_enc(b@),
{
    write_compact_size(out, b.len() as u64);
    let ghost mid = out@;
    let mut k: usize = 0;
    while k < b.len()
        invariant
            k <= b@.len(),
            mid == old(out)@ + varint_enc(b@.len() as u64),
            out@ == mid + b@.subrange(0, k as int),
        decreases b@.len() - k,
    {
        out.push(b[k]);
        assert(out@ =~= mid + b@.subrange(0, k as int + 1));
        k = k + 1;
    }
    proof {
        assert(b@.subrange(0, b@.len() as int) =~= b@);
        assert((old(out)@ + varint_enc(b@.len() as u64)) + b@ =~= old(out)@ + blob_enc(b@));
    }
}

/// Append a hash field reversed: the bytes go out back to front, turning
/// reference order into wire order (and the other way around).
pub fn write_txid(out: &mut Vec<u8>, txid: &Vec<u8>)
    ensures
        final(out)@ == old(out)@ + seq_rev(txid@),
{
    let n = txid.len();
    let mut k: usize = 0;
    while k < n
        invariant
            n == txid@.len(),
            k <= n,
            out@ == old(out)@ + seq_rev(txid@).subrange(0, k as int),
        decreases n - k,
    {
        out.push(txid[n - 1 - k]);
        assert(out@ =~= old(out)@ + seq_rev(txid@).subrange(0, k as int + 1));
        k = k + 1;
    }
    proof {
        assert(seq_rev(txid@).subrange(0, txid@.len() as int) =~= seq_rev(txid@));
    }
}

} // verus!
