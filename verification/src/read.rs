//! Bounds-checked readers over an immutable byte buffer.
//!
//! Every reader takes the buffer and a cursor position; on success the
//! cursor moves just past what was read, and the result is exactly what
//! the specification-level decoder in `model` says for that position. On
//! failure the returned error is exactly the specification's error; the
//! cursor is then meaningless to the caller, since every failure aborts
//! the whole decode.

use vstd::prelude::*;
use crate::err::{DecodeError, Field};
use crate::model::{
    dec_bytes, dec_blob, dec_u16, dec_u32, dec_u64, dec_varint, seq_rev,
};

verus! {

/// `n` raw bytes at the cursor, copied out of the buffer.
pub fn read_bytes(bytes: &[u8], pos: &mut usize, n: usize, field: Field) -> (r: Result<
    Vec<u8>,
    DecodeError,
>)
    ensures
        match r {
            Ok(v) => dec_bytes(bytes@, *old(pos) as int, n as int, field) == Ok::<
                (Seq<u8>, int),
                DecodeError,
            >((v@, *final(pos) as int)) && *final(pos) == *old(pos) + n && *final(pos) <= bytes@.len(),
            Err(e) => dec_bytes(bytes@, *old(pos) as int, n as int, field) == Err::<
                (Seq<u8>, int),
                DecodeError,
            >(e) && *final(pos) == *old(pos),
        },
{
    let start = *pos;
    if start > bytes.len() || n > bytes.len() - start {
        return Err(DecodeError::TruncatedInput { field, offset: start });
    }
    let mut v: Vec<u8> = Vec::new();
    let mut k: usize = 0;
    while k < n
        invariant
            start + n <= bytes@.len(),
            start + n <= usize::MAX,
            k <= n,
            v@ == bytes@.subrange(start as int, start as int + k as int),
        decreases n - k,
    {
        v.push(bytes[start + k]);
        assert(v@ =~= bytes@.subrange(start as int, start as int + (k + 1) as int));
        k = k + 1;
    }
    *pos = start + n;
    Ok(v)
}

/// A 16-bit little-endian unsigned integer.
pub fn read_u16(bytes: &[u8], pos: &mut usize, field: Field) -> (r: Result<u16, DecodeError>)
    ensures
        match r {
            Ok(v) => dec_u16(bytes@, *old(pos) as int, field) == Ok::<(u16, int), DecodeError>(
                (v, *final(pos) as int),
            ) && *final(pos) == *old(pos) + 2 && *final(pos) <= bytes@.len(),
            Err(e) => dec_u16(bytes@, *old(pos) as int, field) == Err::<(u16, int), DecodeError>(e)
                && *final(pos) == *old(pos),
        },
{
    let start = *pos;
    if start > bytes.len() || 2 > bytes.len() - start {
        return Err(DecodeError::TruncatedInput { field, offset: start });
    }
    let b0 = bytes[start];
    let b1 = bytes[start + 1];
    let v: u16 = (b0 as u16) | ((b1 as u16) << 8);
    *pos = start + 2;
    proof {
        let s = bytes@.subrange(start as int, start as int + 2);
        assert(s[0] == b0 && s[1] == b1);
    }
    Ok(v)
}

/// A 32-bit little-endian unsigned integer.
pub fn read_u32(bytes: &[u8], pos: &mut usize, field: Field) -> (r: Result<u32, DecodeError>)
    ensures
        match r {
            Ok(v) => dec_u32(bytes@, *old(pos) as int, field) == Ok::<(u32, int), DecodeError>(
                (v, *final(pos) as int),
            ) && *final(pos) == *old(pos) + 4 && *final(pos) <= bytes@.len(),
            Err(e) => dec_u32(bytes@, *old(pos) as int, field) == Err::<(u32, int), DecodeError>(e)
                && *final(pos) == *old(pos),
        },
{
    let start = *pos;
    if start > bytes.len() || 4 > bytes.len() - start {
        return Err(DecodeError::TruncatedInput { field, offset: start });
    }
    let b0 = bytes[start];
    let b1 = bytes[start + 1];
    let b2 = bytes[start + 2];
    let b3 = bytes[start + 3];
    let v: u32 = (b0 as u32) | ((b1 as u32) << 8) | ((b2 as u32) << 16) | ((b3 as u32) << 24);
    *pos = start + 4;
    proof {
        let s = bytes@.subrange(start as int, start as int + 4);
        assert(s[0] == b0 && s[1] == b1 && s[2] == b2 && s[3] == b3);
    }
    Ok(v)
}

/// A 64-bit little-endian unsigned integer.
pub fn read_u64(bytes: &[u8], pos: &mut usize, field: Field) -> (r: Result<u64, DecodeError>)
    ensures
        match r {
            Ok(v) => dec_u64(bytes@, *old(pos) as int, field) == Ok::<(u64, int), DecodeError>(
                (v, *final(pos) as int),
            ) && *final(pos) == *old(pos) + 8 && *final(pos) <= bytes@.len(),
            Err(e) => dec_u64(bytes@, *old(pos) as int, field) == Err::<(u64, int), DecodeError>(e)
                && *final(pos) == *old(pos),
        },
{
    let start = *pos;
    if start > bytes.len() || 8 > bytes.len() - start {
        return Err(DecodeError::TruncatedInput { field, offset: start });
    }
    let b0 = bytes[start];
    let b1 = bytes[start + 1];
    let b2 = bytes[start + 2];
    let b3 = bytes[start + 3];
    let b4 = bytes[start + 4];
    let b5 = bytes[start + 5];
    let b6 = bytes[start + 6];
    let b7 = bytes[start + 7];
    let v: u64 = (b0 as u64) | ((b1 as u64) << 8) | ((b2 as u64) << 16) | ((b3 as u64) << 24)
        | ((b4 as u64) << 32) | ((b5 as u64) << 40) | ((b6 as u64) << 48) | ((b7 as u64) << 56);
    *pos = start + 8;
    proof {
        let s = bytes@.subrange(start as int, start as int + 8);
        assert(s[0] == b0 && s[1] == b1 && s[2] == b2 && s[3] == b3);
        assert(s[4] == b4 && s[5] == b5 && s[6] == b6 && s[7] == b7);
    }
    Ok(v)
}

/// A compact-size integer: the prefix byte picks the width. Any of the
/// four forms is accepted, canonical or not; the encoder's asymmetric
/// strictness lives in `write::write_compact_size`.
pub fn read_compact_size(bytes: &[u8], pos: &mut usize, field: Field) -> (r: Result<
    u64,
    DecodeError,
>)
    ensures
        match r {
            Ok(v) => dec_varint(bytes@, *old(pos) as int, field) == Ok::<(u64, int), DecodeError>(
                (v, *final(pos) as int),
            ) && *old(pos) < *final(pos) && *final(pos) <= bytes@.len(),
            Err(e) => dec_varint(bytes@, *old(pos) as int, field) == Err::<
                (u64, int),
                DecodeError,
            >(e),
        },
{
    let start = *pos;
    if start >= bytes.len() {
        return Err(DecodeError::TruncatedInput { field, offset: start });
    }
    let p = bytes[start];
    *pos = start + 1;
    if p <= 252 {
        Ok(p as u64)
    } else if p == 253 {
        match read_u16(bytes, pos, field) {
            Ok(v) => Ok(v as u64),
            Err(e) => Err(e),
        }
    } else if p == 254 {
        match read_u32(bytes, pos, field) {
            Ok(v) => Ok(v as u64),
            Err(e) => Err(e),
        }
    } else {
        read_u64(bytes, pos, field)
    }
}

/// A 32-byte transaction id, reversed from wire order into reference
/// order.
pub fn read_txid(bytes: &[u8], pos: &mut usize) -> (r: Result<Vec<u8>, DecodeError>)
    ensures
        match r {
            Ok(v) => dec_bytes(bytes@, *old(pos) as int, 32, Field::PrevTxId) == Ok::<
                (Seq<u8>, int),
                DecodeError,
            >((seq_rev(v@), *final(pos) as int)) && v@.len() == 32 && *final(pos) == *old(pos) + 32 && *final(pos)
                <= bytes@.len(),
            Err(e) => dec_bytes(bytes@, *old(pos) as int, 32, Field::PrevTxId) == Err::<
                (Seq<u8>, int),
                DecodeError,
            >(e) && *final(pos) == *old(pos),
        },
{
    let start = *pos;
    if start > bytes.len() || 32 > bytes.len() - start {
        return Err(DecodeError::TruncatedInput { field: Field::PrevTxId, offset: start });
    }
    let mut v: Vec<u8> = Vec::new();
    let mut k: usize = 0;
    while k < 32
        invariant
            start + 32 <= bytes@.len(),
            start + 32 <= usize::MAX,
            k <= 32,
            v@.len() == k,
            forall|j: int|
                0 <= j < k ==> v@[j] == bytes@[start + 31 - j],
        decreases 32 - k,
    {
        v.push(bytes[start + (31 - k)]);
        k = k + 1;
    }
    *pos = start + 32;
    proof {
        let wire = bytes@.subrange(start as int, start as int + 32);
        assert(seq_rev(v@) =~= wire);
    }
    Ok(v)
}

/// A length-prefixed opaque blob: a compact-size byte count, then that
/// many raw bytes, copied out of the buffer.
pub fn read_script(bytes: &[u8], pos: &mut usize, field: Field) -> (r: Result<Vec<u8>, DecodeError>)
    ensures
        match r {
            Ok(v) => dec_blob(bytes@, *old(pos) as int, field) == Ok::<(Seq<u8>, int), DecodeError>(
                (v@, *final(pos) as int),
            ) && *old(pos) < *final(pos) && *final(pos) <= bytes@.len(),
            Err(e) => dec_blob(bytes@, *old(pos) as int, field) == Err::<
                (Seq<u8>, int),
                DecodeError,
            >(e),
        },
{
    let n = match read_compact_size(bytes, pos, field) {
        Ok(n) => n,
        Err(e) => {
            return Err(e);
        },
    };
    let start = *pos;
    if n > (bytes.len() - start) as u64 {
        return Err(DecodeError::TruncatedInput { field, offset: start });
    }
    read_bytes(bytes, pos, n as usize, field)
}

} // verus!
