use bt_decode::compact::{decode_compact, encode_compact};
use bt_decode::error::DecodeError;

#[test]
fn compact_round_trip_across_modes() {
    let cases: Vec<(u128, usize)> = vec![
        (0, 1),
        (1, 1),
        (63, 1),
        (64, 2),
        (16383, 2),
        (16384, 4),
        ((1 << 30) - 1, 4),
        (1 << 30, 5),
        (u32::MAX as u128, 5),
        (1 << 32, 6),
        (u64::MAX as u128, 9),
        (u128::MAX, 17),
    ];
    for (v, len) in cases {
        let mut bytes = encode_compact(v);
        assert_eq!(bytes.len(), len, "length for {}", v);
        bytes.push(0xee);
        assert_eq!(decode_compact(&bytes, 0), Ok((v, len)));
    }
}

#[test]
fn compact_encodings_are_exact() {
    assert_eq!(encode_compact(1), vec![0x04]);
    assert_eq!(encode_compact(64), vec![0x01, 0x01]);
    assert_eq!(encode_compact(16384), vec![0x02, 0x00, 0x01, 0x00]);
    assert_eq!(encode_compact(1 << 30), vec![0x03, 0x00, 0x00, 0x00, 0x40]);
    assert_eq!(encode_compact(1 << 32), vec![0x07, 0x00, 0x00, 0x00, 0x00, 0x01]);
}

#[test]
fn compact_big_mode_rejects_padding() {
    // Declares five bytes for a value that fits in four.
    let padded = [0x07, 0x00, 0x00, 0x00, 0x40, 0x00];
    assert_eq!(decode_compact(&padded, 0), Err(DecodeError::InvalidCompactEncoding));
    // Big mode for a value below 2^30.
    let small = [0x03, 0xff, 0xff, 0xff, 0x3f];
    assert_eq!(decode_compact(&small, 0), Err(DecodeError::InvalidCompactEncoding));
}

#[test]
fn compact_small_modes_reject_non_minimal() {
    assert_eq!(decode_compact(&[0x05, 0x00], 0), Err(DecodeError::InvalidCompactEncoding));
    assert_eq!(
        decode_compact(&[0x06, 0x00, 0x00, 0x00], 0),
        Err(DecodeError::InvalidCompactEncoding)
    );
}

#[test]
fn compact_too_long_for_the_domain() {
    let mut data = vec![((17 - 4) << 2) | 3];
    data.extend_from_slice(&[0xff; 17]);
    assert_eq!(decode_compact(&data, 0), Err(DecodeError::InvalidCompactEncoding));
}

#[test]
fn compact_underrun() {
    assert_eq!(decode_compact(&[], 0), Err(DecodeError::BufferUnderrun));
    assert_eq!(decode_compact(&[0x01], 0), Err(DecodeError::BufferUnderrun));
    assert_eq!(decode_compact(&[0x02, 0, 0], 0), Err(DecodeError::BufferUnderrun));
    assert_eq!(decode_compact(&[0x03, 0, 0, 0], 0), Err(DecodeError::BufferUnderrun));
}

#[test]
fn compact_decodes_at_offset() {
    assert_eq!(decode_compact(&[0xff, 0x08, 0xff], 1), Ok((2, 2)));
}
