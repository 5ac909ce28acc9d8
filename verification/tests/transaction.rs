use txcodec::err::{DecodeError, Field};
use txcodec::tx::{decode, decode_from, encode, Transaction, TxInput, TxOutput};

const LEGACY_HEX: &str = "0100000001b1e8e4c012c79b1a2f2a73f82b3c36b27acdc059a3d4f3ec1a91a0b7d8e9c9f6010000006b483045022100f3e5e5d7d0a7d832cb1b64b5403d8cb3b12d8a7e1b6b6b9f6e70cb7a4b6a7f0a02204c5df5b18b6d34b0a041a0df9c7eb8b36ac528e78b90eaa73a53c3bb4a8a5d3a0121036c2a63a5d4e9d2d0bba3b54b59789a8a7e4f21f351a8bfa09ac05d8f1f302b88ffffffff0280969800000000001976a9145d1b8b1b2dbf2ee66a6f7e0a7f847e8b1f8e4b7388ac40420f00000000001976a914b0bd634234ab6d87f86df5c463e3f1d7ed3d89f088ac00000000";

const SEGWIT_HEX: &str = "02000000000101d09027b7704128d6168122212afbcb5d960e572f59a879d60dc53370f382cab40000000000fdffffff0227be16000000000016001498779af6da1c0b3bf20be047a1b6e3491ab991790000000000000000156a5d1214011400ff7f818cec82d08bc0a88281d215024730440220233215e028be213467a97eac37951a8e9bd2b41e6630107ad3b8f5ceb7dbcc4a0220320e24c70fafcab86dbc4fcdd6f3fddcd6e6f54e785631ddfbe00d1a89fff4d20121024f5b5d052d4d76b514bacbd8407e6297f4043739e9f359ee3c9baa716332aafc00000000";

fn sample_input(tag: u8) -> TxInput {
    TxInput {
        txid: (0..32u8).map(|b| b.wrapping_add(tag)).collect(),
        output_index: 7,
        script_sig: vec![0x51, tag],
        sequence: 0xFFFF_FFFE,
        witness: Vec::new(),
    }
}

#[test]
fn legacy_stream_decodes_without_witness() {
    let bytes = hex::decode(LEGACY_HEX).unwrap();
    let tx = decode(&bytes).unwrap();
    assert_eq!(tx.version, 1);
    assert!(!tx.segwit);
    assert_eq!(tx.inputs.len(), 1);
    assert_eq!(tx.outputs.len(), 2);
    assert!(tx.inputs.iter().all(|i| i.witness.is_empty()));
    assert_eq!(tx.outputs[0].value, 10_000_000);
    assert_eq!(tx.lock_time, 0);
    // Re-encoding reproduces the stream byte for byte.
    assert_eq!(encode(&tx), bytes);
}

#[test]
fn segwit_stream_decodes_with_witness() {
    let bytes = hex::decode(SEGWIT_HEX).unwrap();
    let tx = decode(&bytes).unwrap();
    assert_eq!(tx.version, 2);
    assert!(tx.segwit);
    assert_eq!(tx.inputs.len(), 1);
    assert_eq!(tx.inputs[0].witness.len(), 2);
    assert_eq!(tx.outputs.len(), 2);
    // Re-encoding reproduces the stream byte for byte.
    assert_eq!(encode(&tx), bytes);
}

#[test]
fn round_trip_legacy_value() {
    let tx = Transaction {
        version: 1,
        segwit: false,
        inputs: vec![sample_input(1), sample_input(9)],
        outputs: vec![
            TxOutput { value: 50_000, script_pubkey: vec![0xAC] },
            TxOutput { value: 0, script_pubkey: Vec::new() },
        ],
        lock_time: 101,
    };
    let bytes = encode(&tx);
    let back = decode(&bytes).unwrap();
    assert_eq!(back, tx);
}

#[test]
fn round_trip_segwit_value() {
    let mut first = sample_input(3);
    first.witness = vec![vec![0x30, 0x45], Vec::new(), vec![0x02]];
    let tx = Transaction {
        version: 2,
        segwit: true,
        inputs: vec![first, sample_input(5)],
        outputs: vec![TxOutput { value: 1, script_pubkey: vec![0x00, 0x14] }],
        lock_time: 0,
    };
    let bytes = encode(&tx);
    // Marker and flag follow the version.
    assert_eq!(bytes[4], 0x00);
    assert_eq!(bytes[5], 0x01);
    let back = decode(&bytes).unwrap();
    assert_eq!(back, tx);
}

#[test]
fn truncated_after_version() {
    // Only the four version bytes: the failure names the input count,
    // at offset 4.
    let bytes = [1_u8, 0, 0, 0];
    let err = decode(&bytes).unwrap_err();
    assert_eq!(
        err,
        DecodeError::TruncatedInput { field: Field::InputCount, offset: 4 }
    );
}

#[test]
fn empty_transaction_decodes_and_reencodes() {
    // Zero inputs and zero outputs are structurally legal. In segwit
    // framing the stream is unambiguous; the value re-encodes without
    // error (to legacy framing, since no input has witness data).
    let bytes = hex::decode("010000000001000000000000").unwrap();
    let tx = decode(&bytes).unwrap();
    assert!(tx.segwit);
    assert_eq!(tx.inputs.len(), 0);
    assert_eq!(tx.outputs.len(), 0);
    let reencoded = encode(&tx);
    assert_eq!(reencoded, hex::decode("01000000000000000000").unwrap());
}

#[test]
fn witness_count_mismatch() {
    // Segwit framing with two inputs, but the witness section ends after
    // one stack: the error is the mismatch, not a garbled lock time.
    let mut bytes: Vec<u8> = Vec::new();
    bytes.extend_from_slice(&[2, 0, 0, 0]); // version
    bytes.extend_from_slice(&[0x00, 0x01]); // marker, flag
    bytes.push(2); // input count
    for _ in 0..2 {
        bytes.extend_from_slice(&[0u8; 32]); // txid
        bytes.extend_from_slice(&[0, 0, 0, 0]); // output index
        bytes.push(0); // empty script_sig
        bytes.extend_from_slice(&[0xFF, 0xFF, 0xFF, 0xFF]); // sequence
    }
    bytes.push(0); // output count
    bytes.push(0); // witness stack for input 1: zero items
    // stream ends: no stack for input 2, no lock time
    let err = decode(&bytes).unwrap_err();
    assert_eq!(err, DecodeError::WitnessCountMismatch);
}

#[test]
fn trailing_bytes_strict_and_permissive() {
    let tx = Transaction {
        version: 1,
        segwit: false,
        inputs: vec![sample_input(2)],
        outputs: vec![TxOutput { value: 5, script_pubkey: vec![0xAA] }],
        lock_time: 0,
    };
    let mut bytes = encode(&tx);
    let tx_len = bytes.len();
    bytes.push(0xEE);
    // Strict decoding refuses the leftover byte.
    assert_eq!(decode(&bytes).unwrap_err(), DecodeError::TrailingBytes);
    // Permissive decoding stops just past the transaction.
    let mut pos: usize = 0;
    let back = decode_from(&bytes, &mut pos).unwrap();
    assert_eq!(back, tx);
    assert_eq!(pos, tx_len);
}

#[test]
fn encoder_infers_segwit_from_data() {
    // A transaction whose only witness stacks are empty is framed as
    // legacy, whatever its flag says, so its encoding always decodes
    // back to itself up to that flag.
    let tx = Transaction {
        version: 1,
        segwit: false,
        inputs: vec![sample_input(4)],
        outputs: Vec::new(),
        lock_time: 9,
    };
    let bytes = encode(&tx);
    assert_ne!(bytes[4], 0x00); // no marker: input count comes right after version
    let back = decode(&bytes).unwrap();
    assert!(!back.segwit);
    assert_eq!(back, tx);
}
