use snappy_codec::{
    compress, compress_source_to_sink, max_compressed_length, uncompress,
    uncompress_source_to_sink, validate_compressed_buffer, RustSliceSource, RustVecSink,
    SnappyError,
};

#[test]
fn test_roundtrip_source_sink() {
    let input_data = b"Hello world!";

    let mut input = RustSliceSource::new(&input_data[..]);
    let mut output = RustVecSink::new();
    compress_source_to_sink(&mut input, &mut output);

    let compressed = output.into_inner();
    assert_ne!(input_data, compressed.as_slice());

    let mut input = RustSliceSource::new(&compressed[..]);
    let mut output = RustVecSink::new();
    uncompress_source_to_sink(&mut input, &mut output);

    let uncompressed = output.into_inner();
    assert_eq!(input_data, uncompressed.as_slice());
}

#[test]
fn compress_and_uncompress() {
    let input = b"Hello, world!";
    let compressed = compress(input).unwrap();
    let uncompressed = uncompress(&compressed).unwrap();
    assert_eq!(input, uncompressed.as_slice());
}

#[test]
fn empty_input_is_a_single_zero_byte() {
    let block = compress(&[]).unwrap();
    assert_eq!(block, vec![0u8]);
    assert_eq!(uncompress(&block), Ok(Vec::new()));
    assert!(validate_compressed_buffer(&block));
}

#[test]
fn text_without_repeats_is_one_literal() {
    let block = compress(b"Hello world!").unwrap();
    let mut expected = vec![12u8, 44u8];
    expected.extend_from_slice(b"Hello world!");
    assert_eq!(block, expected);
}

#[test]
fn repeated_word_becomes_literal_and_copy() {
    let block = compress(b"abcdabcdabcdabcd").unwrap();
    assert_eq!(block, vec![16u8, 12, b'a', b'b', b'c', b'd', 46, 4, 0]);
    assert_eq!(uncompress(&block).unwrap(), b"abcdabcdabcdabcd".to_vec());
}

#[test]
fn short_nearby_match_uses_two_byte_copy() {
    let block = compress(b"abcdabcd").unwrap();
    assert_eq!(block, vec![8u8, 12, b'a', b'b', b'c', b'd', 1, 4]);
    assert_eq!(uncompress(&block).unwrap(), b"abcdabcd".to_vec());
}

#[test]
fn highly_repetitive_input_shrinks() {
    let input = vec![0x41u8; 100000];
    let block = compress(&input).unwrap();
    assert!(block.len() * 10 < input.len());
    assert_eq!(block.len(), 3 + 2 + 1562 * 3 + 3);
    let back = uncompress(&block).unwrap();
    assert_eq!(back.len(), 100000);
    assert!(back.iter().all(|b| *b == 0x41));
}

#[test]
fn round_trip_on_mixed_data() {
    let mut input: Vec<u8> = Vec::new();
    let mut state: u32 = 12345;
    for i in 0..200000u32 {
        state = state.wrapping_mul(1103515245).wrapping_add(12345);
        if (i / 1000) % 2 == 0 {
            input.push((state >> 16) as u8);
        } else {
            input.push((i % 7) as u8);
        }
    }
    let block = compress(&input).unwrap();
    assert!(block.len() <= max_compressed_length(input.len()));
    assert!(validate_compressed_buffer(&block));
    assert_eq!(uncompress(&block).unwrap(), input);
}

#[test]
fn round_trip_on_incompressible_data_stays_in_bound() {
    let mut input: Vec<u8> = Vec::new();
    let mut state: u64 = 0x9e3779b97f4a7c15;
    for _ in 0..70000 {
        state ^= state << 13;
        state ^= state >> 7;
        state ^= state << 17;
        input.push((state >> 24) as u8);
    }
    let block = compress(&input).unwrap();
    assert!(block.len() > input.len());
    assert!(block.len() <= max_compressed_length(input.len()));
    assert_eq!(uncompress(&block).unwrap(), input);
}

#[test]
fn round_trip_for_every_short_length() {
    for len in 0..300usize {
        let input: Vec<u8> = (0..len).map(|i| (i % 5) as u8).collect();
        let block = compress(&input).unwrap();
        assert!(block.len() <= max_compressed_length(len));
        assert!(validate_compressed_buffer(&block));
        assert_eq!(uncompress(&block).unwrap(), input);
    }
}

#[test]
fn compression_is_deterministic() {
    let input = b"the quick brown fox jumps over the lazy dog, the quick brown fox".to_vec();
    assert_eq!(compress(&input).unwrap(), compress(&input).unwrap());
}

#[test]
fn max_compressed_length_values() {
    assert_eq!(max_compressed_length(0), 32);
    assert_eq!(max_compressed_length(5), 37);
    assert_eq!(max_compressed_length(6), 39);
    assert_eq!(max_compressed_length(100), 148);
    assert_eq!(max_compressed_length(100000), 116698);
}

#[test]
fn truncated_block_is_malformed() {
    let inputs: Vec<Vec<u8>> = vec![
        Vec::new(),
        b"a".to_vec(),
        b"Hello world!".to_vec(),
        b"abcdabcdabcdabcd".to_vec(),
        vec![7u8; 1000],
    ];
    for input in inputs {
        let mut block = compress(&input).unwrap();
        block.pop();
        assert_eq!(uncompress(&block), Err(SnappyError::MalformedInput));
        assert!(!validate_compressed_buffer(&block));
    }
}

#[test]
fn overlapping_copy_expands_byte_by_byte() {
    let block = vec![11u8, 0x00, b'A', 25, 1];
    assert_eq!(uncompress(&block).unwrap(), b"AAAAAAAAAAA".to_vec());
}

#[test]
fn overlapping_copy_with_offset_two_alternates() {
    let block = vec![8u8, 0x04, b'a', b'b', 2 + 5 * 4, 2, 0];
    assert_eq!(uncompress(&block).unwrap(), b"abababab".to_vec());
}

#[test]
fn copy_beyond_output_is_rejected() {
    let block = vec![5u8, 0x00, b'A', 1, 2];
    assert_eq!(uncompress(&block), Err(SnappyError::InvalidCopyOffset));
    assert!(!validate_compressed_buffer(&block));
}

#[test]
fn copy_before_any_output_is_rejected() {
    let block = vec![4u8, 1, 1];
    assert_eq!(uncompress(&block), Err(SnappyError::InvalidCopyOffset));
}

#[test]
fn copy_with_zero_offset_is_rejected() {
    let block = vec![5u8, 0x00, b'A', 2 + 3 * 4, 0, 0];
    assert_eq!(uncompress(&block), Err(SnappyError::InvalidCopyOffset));
}

#[test]
fn four_byte_offset_copy_is_decoded() {
    let block = vec![6u8, 0x04, b'x', b'y', 3 + 3 * 4, 2, 0, 0, 0];
    assert_eq!(uncompress(&block).unwrap(), b"xyxyxy".to_vec());
    assert!(validate_compressed_buffer(&block));
}

#[test]
fn four_byte_offset_copy_out_of_range_is_rejected() {
    let block = vec![6u8, 0x04, b'x', b'y', 3 + 3 * 4, 2, 0, 0, 1];
    assert_eq!(uncompress(&block), Err(SnappyError::InvalidCopyOffset));
}

#[test]
fn long_literal_with_one_length_byte() {
    let data: Vec<u8> = (0..100u8).collect();
    let mut block = vec![100u8, 240, 99];
    block.extend_from_slice(&data);
    assert_eq!(uncompress(&block).unwrap(), data);
}

#[test]
fn long_literal_with_two_length_bytes() {
    let data: Vec<u8> = (0..1000u32).map(|i| (i % 251) as u8).collect();
    let mut block = vec![0xe8u8, 0x07, 244, 0xe7, 0x03];
    block.extend_from_slice(&data);
    assert_eq!(uncompress(&block).unwrap(), data);
}

#[test]
fn long_literal_with_three_and_four_length_bytes() {
    let data = vec![9u8; 70];
    let mut block = vec![70u8, 248, 69, 0, 0];
    block.extend_from_slice(&data);
    assert_eq!(uncompress(&block).unwrap(), data);
    let mut block = vec![70u8, 252, 69, 0, 0, 0];
    block.extend_from_slice(&data);
    assert_eq!(uncompress(&block).unwrap(), data);
}

#[test]
fn declared_length_too_long_is_a_mismatch() {
    let block = vec![3u8, 0x04, b'a', b'b'];
    assert_eq!(uncompress(&block), Err(SnappyError::LengthMismatch));
    assert!(!validate_compressed_buffer(&block));
}

#[test]
fn declared_length_too_short_is_a_mismatch() {
    let block = vec![1u8, 0x04, b'a', b'b'];
    assert_eq!(uncompress(&block), Err(SnappyError::LengthMismatch));
    let block = vec![2u8, 0x00, b'A', 1, 1];
    assert_eq!(uncompress(&block), Err(SnappyError::LengthMismatch));
}

#[test]
fn truncated_literal_and_header_are_malformed() {
    assert_eq!(uncompress(&[]), Err(SnappyError::MalformedInput));
    assert_eq!(uncompress(&[0x80]), Err(SnappyError::MalformedInput));
    assert_eq!(uncompress(&[5, 0x10, b'a']), Err(SnappyError::MalformedInput));
    assert_eq!(uncompress(&[100, 240]), Err(SnappyError::MalformedInput));
    assert_eq!(uncompress(&[5, 0x00, b'a', 2 + 3 * 4, 1]), Err(SnappyError::MalformedInput));
    assert_eq!(uncompress(&[5, 0x00, b'a', 3 + 3 * 4, 1, 0, 0]), Err(SnappyError::MalformedInput));
}

#[test]
fn source_and_sink_report_what_was_written() {
    let data = b"abcdabcdabcdabcd";
    let mut source = RustSliceSource::new(&data[..]);
    let mut sink = RustVecSink::new();
    sink.append(b"head");
    let written = compress_source_to_sink(&mut source, &mut sink);
    assert_eq!(written, 9);
    assert_eq!(source.available(), 0);
    let all = sink.into_inner();
    assert_eq!(&all[..4], b"head");
    assert_eq!(all[4..].to_vec(), compress(data).unwrap());
}

#[test]
fn uncompress_to_sink_leaves_sink_alone_on_failure() {
    let bad = vec![5u8, 0x00, b'A', 1, 2];
    let mut source = RustSliceSource::new(&bad[..]);
    let mut sink = RustVecSink::new();
    sink.append(b"kept");
    assert!(!uncompress_source_to_sink(&mut source, &mut sink));
    assert_eq!(sink.into_inner(), b"kept".to_vec());
}

#[test]
fn slice_source_peeks_and_skips() {
    let data = [1u8, 2, 3, 4, 5];
    let mut source = RustSliceSource::new(&data[..]);
    assert_eq!(source.available(), 5);
    assert_eq!(source.peek(), &data[..]);
    source.skip(2);
    assert_eq!(source.available(), 3);
    assert_eq!(source.peek(), &[3u8, 4, 5][..]);
    source.skip(3);
    assert_eq!(source.available(), 0);
    assert!(source.peek().is_empty());
}
