use txcodec::err::{DecodeError, Field};
use txcodec::read::{read_bytes, read_script, read_txid, read_u16, read_u32, read_u64};
use txcodec::write::{write_script, write_txid, write_u16, write_u32, write_u64};

#[test]
fn little_endian_integers() {
    let mut out: Vec<u8> = Vec::new();
    write_u16(&mut out, 0x1234);
    assert_eq!(out, vec![0x34, 0x12]);
    let mut pos: usize = 0;
    assert_eq!(read_u16(&out, &mut pos, Field::Value).unwrap(), 0x1234);

    let mut out: Vec<u8> = Vec::new();
    write_u32(&mut out, 0xDEAD_BEEF);
    assert_eq!(out, vec![0xEF, 0xBE, 0xAD, 0xDE]);
    let mut pos: usize = 0;
    assert_eq!(read_u32(&out, &mut pos, Field::Version).unwrap(), 0xDEAD_BEEF);

    let mut out: Vec<u8> = Vec::new();
    write_u64(&mut out, 0x0102_0304_0506_0708);
    assert_eq!(out, vec![8, 7, 6, 5, 4, 3, 2, 1]);
    let mut pos: usize = 0;
    assert_eq!(
        read_u64(&out, &mut pos, Field::Value).unwrap(),
        0x0102_0304_0506_0708
    );
}

#[test]
fn txid_byte_reversal_and_back() {
    // Wire bytes 0x01..0x20 come back in reference order 0x20..0x01, and
    // re-encoding reproduces the wire bytes.
    let wire: Vec<u8> = (1..=32u8).collect();
    let mut pos: usize = 0;
    let txid = read_txid(&wire, &mut pos).unwrap();
    let reference: Vec<u8> = (1..=32u8).rev().collect();
    assert_eq!(txid, reference);
    assert_eq!(pos, 32);

    let mut out: Vec<u8> = Vec::new();
    write_txid(&mut out, &txid);
    assert_eq!(out, wire);
}

#[test]
fn txid_truncated() {
    let wire: Vec<u8> = vec![0u8; 31];
    let mut pos: usize = 0;
    let err = read_txid(&wire, &mut pos).unwrap_err();
    assert_eq!(
        err,
        DecodeError::TruncatedInput { field: Field::PrevTxId, offset: 0 }
    );
}

#[test]
fn script_blob_round_trip() {
    let script: Vec<u8> = vec![0x76, 0xA9, 0x14, 0x00, 0xFF];
    let mut out: Vec<u8> = Vec::new();
    write_script(&mut out, &script);
    assert_eq!(out[0], 5); // compact-size length prefix
    assert_eq!(&out[1..], &script[..]);

    let mut pos: usize = 0;
    let back = read_script(&out, &mut pos, Field::ScriptSig).unwrap();
    assert_eq!(back, script);
    assert_eq!(pos, out.len());
}

#[test]
fn script_blob_truncated_body() {
    // Length prefix says 4 bytes, only 2 follow: the error points at the
    // position where the body read was attempted.
    let bytes = [4_u8, 0xAA, 0xBB];
    let mut pos: usize = 0;
    let err = read_script(&bytes, &mut pos, Field::ScriptPubKey).unwrap_err();
    assert_eq!(
        err,
        DecodeError::TruncatedInput { field: Field::ScriptPubKey, offset: 1 }
    );
}

#[test]
fn read_bytes_copies_out() {
    let bytes = [9_u8, 8, 7, 6];
    let mut pos: usize = 1;
    let v = read_bytes(&bytes, &mut pos, 2, Field::ScriptSig).unwrap();
    assert_eq!(v, vec![8, 7]);
    assert_eq!(pos, 3);
}
