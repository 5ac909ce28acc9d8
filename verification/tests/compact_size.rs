use txcodec::err::{DecodeError, Field};
use txcodec::read::read_compact_size;
use txcodec::write::write_compact_size;

#[test]
fn test_read_compact_size() {
    let bytes = [1_u8];
    let mut pos: usize = 0;
    let count = read_compact_size(&bytes, &mut pos, Field::InputCount).unwrap();
    assert_eq!(count, 1);
    assert_ne!(count, 2);

    let bytes = [253_u8, 0, 1];
    let mut pos: usize = 0;
    let count = read_compact_size(&bytes, &mut pos, Field::InputCount).unwrap();
    assert_eq!(count, 256);

    let bytes = [254_u8, 0, 0, 0, 1];
    let mut pos: usize = 0;
    let count = read_compact_size(&bytes, &mut pos, Field::InputCount).unwrap();
    assert_eq!(count, 256_u64.pow(3));

    let bytes = [255_u8, 0, 0, 0, 0, 0, 0, 0, 1];
    let mut pos: usize = 0;
    let count = read_compact_size(&bytes, &mut pos, Field::InputCount).unwrap();
    assert_eq!(count, 256_u64.pow(7));

    let hex = "fd204e";
    let decoded = hex::decode(hex).unwrap();
    let mut pos: usize = 0;
    let count = read_compact_size(&decoded, &mut pos, Field::InputCount).unwrap();
    let excepted_count = 20_000_u64;
    assert_eq!(count, excepted_count);
}

#[test]
fn canonical_varint_lengths_and_round_trip() {
    let cases: [(u64, usize); 10] = [
        (0, 1),
        (1, 1),
        (252, 1),
        (253, 3),
        (255, 3),
        (65535, 3),
        (65536, 5),
        (u32::MAX as u64, 5),
        (1 << 32, 9),
        (u64::MAX, 9),
    ];
    for (v, expected_len) in cases {
        let mut out: Vec<u8> = Vec::new();
        write_compact_size(&mut out, v);
        assert_eq!(out.len(), expected_len, "length for {}", v);
        let mut pos: usize = 0;
        let back = read_compact_size(&out, &mut pos, Field::InputCount).unwrap();
        assert_eq!(back, v);
        assert_eq!(pos, out.len());
    }
}

#[test]
fn non_canonical_zero_is_accepted() {
    // 0xFD-prefixed encoding of 0: the decoder is lenient and yields 0,
    // even though the canonical form is the single byte 0x00.
    let bytes = [0xFD_u8, 0x00, 0x00];
    let mut pos: usize = 0;
    let count = read_compact_size(&bytes, &mut pos, Field::InputCount).unwrap();
    assert_eq!(count, 0);
    assert_eq!(pos, 3);
    // The encoder would never emit that form.
    let mut out: Vec<u8> = Vec::new();
    write_compact_size(&mut out, 0);
    assert_eq!(out, vec![0x00_u8]);
}

#[test]
fn compact_size_truncated_payload() {
    // Prefix promises two payload bytes, only one is present.
    let bytes = [253_u8, 7];
    let mut pos: usize = 0;
    let err = read_compact_size(&bytes, &mut pos, Field::OutputCount).unwrap_err();
    assert_eq!(
        err,
        DecodeError::TruncatedInput { field: Field::OutputCount, offset: 1 }
    );
}
