use snappy_codec::{
    decode_varint, encode_varint, snappy_to_result, uncompressed_length, SnappyError,
};

#[test]
fn varint_exact_encodings() {
    assert_eq!(encode_varint(0), vec![0u8]);
    assert_eq!(encode_varint(1), vec![1u8]);
    assert_eq!(encode_varint(127), vec![0x7fu8]);
    assert_eq!(encode_varint(128), vec![0x80u8, 0x01]);
    assert_eq!(encode_varint(300), vec![0xacu8, 0x02]);
    assert_eq!(encode_varint(16384), vec![0x80u8, 0x80, 0x01]);
    assert_eq!(encode_varint(u32::MAX), vec![0xffu8, 0xff, 0xff, 0xff, 0x0f]);
}

#[test]
fn varint_decodes_value_and_width() {
    assert_eq!(decode_varint(&[0]), Ok((0, 1)));
    assert_eq!(decode_varint(&[0xac, 0x02, 0xff]), Ok((300, 2)));
    assert_eq!(decode_varint(&[0xff, 0xff, 0xff, 0xff, 0x0f]), Ok((u32::MAX, 5)));
    assert_eq!(decode_varint(&[0x80, 0x00]), Ok((0, 2)));
}

#[test]
fn varint_round_trip_on_chosen_values() {
    let values = [0u32, 1, 127, 128, 255, 256, 16383, 16384, 2097151, 2097152, 268435455,
        268435456, u32::MAX - 1, u32::MAX];
    for v in values {
        let bytes = encode_varint(v);
        assert_eq!(decode_varint(&bytes), Ok((v, bytes.len())));
    }
}

#[test]
fn varint_rejects_truncated_long_and_overflowing() {
    assert_eq!(decode_varint(&[]), Err(SnappyError::MalformedInput));
    assert_eq!(decode_varint(&[0x80]), Err(SnappyError::MalformedInput));
    assert_eq!(decode_varint(&[0xff, 0xff, 0xff]), Err(SnappyError::MalformedInput));
    assert_eq!(
        decode_varint(&[0x80, 0x80, 0x80, 0x80, 0x80, 0x01]),
        Err(SnappyError::MalformedInput)
    );
    assert_eq!(
        decode_varint(&[0xff, 0xff, 0xff, 0xff, 0x10]),
        Err(SnappyError::MalformedInput)
    );
}

#[test]
fn uncompressed_length_reads_the_header_only() {
    assert_eq!(uncompressed_length(&[0xac, 0x02, 1, 2, 3]), Ok(300));
    assert_eq!(uncompressed_length(&[0x80]), Err(SnappyError::MalformedInput));
}

#[test]
fn status_codes_map_to_results() {
    assert_eq!(snappy_to_result(0), Ok(()));
    assert_eq!(snappy_to_result(1), Err(SnappyError::InvalidInput));
    assert_eq!(snappy_to_result(2), Err(SnappyError::BufferTooSmall));
    assert_eq!(snappy_to_result(3), Err(SnappyError::Unknown(3)));
    assert_eq!(snappy_to_result(u32::MAX), Err(SnappyError::Unknown(u32::MAX)));
}

#[test]
fn error_messages() {
    assert_eq!(SnappyError::InvalidInput.message(), "invalid input");
    assert_eq!(SnappyError::BufferTooSmall.message(), "buffer too small");
    assert_eq!(SnappyError::Unknown(9).message(), "unknown error code");
    assert_eq!(SnappyError::MalformedInput.message(), "malformed input");
    assert_eq!(SnappyError::InvalidCopyOffset.message(), "invalid copy offset");
    assert_eq!(SnappyError::LengthMismatch.message(), "length mismatch");
}
