use lz4_block::{compress, decompress, CorruptInput};

#[test]
fn empty_input_is_a_bare_prefix() {
    let block = compress(&[]);
    assert_eq!(block, vec![0u8, 0, 0, 0]);
    assert_eq!(decompress(&block), Ok(Vec::new()));
}

#[test]
fn ten_repeated_bytes_use_a_back_reference() {
    let input = b"aaaaaaaaaa";
    let block = compress(input);
    assert_eq!(&block[..4], &[10u8, 0, 0, 0]);
    // One literal, a match of four bytes at distance one, five final literals.
    assert_eq!(
        block,
        vec![10u8, 0, 0, 0, 0x10, b'a', 1, 0, 0x50, b'a', b'a', b'a', b'a', b'a']
    );
    assert!(block.len() - 4 < 1 + input.len());
    assert_eq!(decompress(&block), Ok(input.to_vec()));
}

#[test]
fn single_byte_is_one_literal() {
    let block = compress(&[0x7f]);
    assert_eq!(block, vec![1u8, 0, 0, 0, 0x10, 0x7f]);
    assert_eq!(decompress(&block), Ok(vec![0x7f]));
}

#[test]
fn short_inputs_are_pure_literals() {
    let input = b"abcdabcd";
    let block = compress(input);
    let mut expected = vec![8u8, 0, 0, 0, 0x80];
    expected.extend_from_slice(input);
    assert_eq!(block, expected);
    assert_eq!(decompress(&block), Ok(input.to_vec()));
}

#[test]
fn last_five_bytes_stay_literals() {
    // "abcd" repeats at distance four, but only one byte of the repeat lies
    // before the last five, so no match of four bytes fits.
    let input = b"abcdabcdab";
    let block = compress(input);
    let mut expected = vec![10u8, 0, 0, 0, 0xa0];
    expected.extend_from_slice(input);
    assert_eq!(block, expected);
}

#[test]
fn match_stops_before_the_last_five_bytes() {
    let input = b"abcdabcdabcdabcd";
    let block = compress(input);
    // Four literals, a match of seven bytes at distance four, five literals.
    assert_eq!(
        block,
        vec![16u8, 0, 0, 0, 0x43, b'a', b'b', b'c', b'd', 4, 0, 0x50, b'd', b'a', b'b', b'c', b'd']
    );
    assert_eq!(decompress(&block), Ok(input.to_vec()));
}

#[test]
fn long_literal_run_uses_continuation_bytes() {
    // No four bytes occur twice, so no match is found.
    let input: Vec<u8> = (0..300usize)
        .map(|i| (i % 256) as u8 ^ ((i / 256) as u8).wrapping_mul(17))
        .collect();
    let block = compress(&input);
    assert_eq!(&block[..4], &[44u8, 1, 0, 0]);
    assert_eq!(block[4], 0xf0);
    // 300 = 15 + 255 + 30
    assert_eq!(&block[5..7], &[255u8, 30]);
    assert_eq!(&block[7..], &input[..]);
    assert_eq!(decompress(&block), Ok(input));
}

#[test]
fn literal_run_of_exactly_fifteen_has_a_zero_continuation() {
    let input: Vec<u8> = (0..15u8).collect();
    let mut expected = vec![15u8, 0, 0, 0, 0xf0, 0];
    expected.extend_from_slice(&input);
    assert_eq!(compress(&input), expected);
    assert_eq!(decompress(&expected), Ok(input));
}

#[test]
fn literal_run_of_270_bytes_ends_its_length_with_zero() {
    // 270 = 15 + 255 + 0
    let input: Vec<u8> = (0..270usize)
        .map(|i| (i % 256) as u8 ^ ((i / 256) as u8).wrapping_mul(17))
        .collect();
    let block = compress(&input);
    assert_eq!(&block[..7], &[14u8, 1, 0, 0, 0xf0, 255, 0]);
    assert_eq!(&block[7..], &input[..]);
    assert_eq!(decompress(&block), Ok(input));
}

#[test]
fn long_match_uses_continuation_bytes() {
    let input = vec![b'z'; 1000];
    let block = compress(&input);
    // One literal, then a match of 994 bytes: 994 - 4 = 15 + 255 * 3 + 210.
    assert_eq!(
        block,
        vec![0xe8u8, 3, 0, 0, 0x1f, b'z', 1, 0, 255, 255, 255, 210, 0x50, b'z', b'z', b'z', b'z', b'z']
    );
    assert_eq!(decompress(&block), Ok(input));
}

#[test]
fn match_length_of_exactly_nineteen_has_a_zero_continuation() {
    let input = vec![7u8; 25];
    let block = compress(&input);
    // One literal, a match of 19 bytes (nibble 15, continuation 0), five literals.
    assert_eq!(
        block,
        vec![25u8, 0, 0, 0, 0x1f, 7, 1, 0, 0, 0x50, 7, 7, 7, 7, 7]
    );
    assert_eq!(decompress(&block), Ok(input));
}

#[test]
fn messages_name_the_reason() {
    assert_eq!(
        CorruptInput::Truncated.message(),
        "corrupt input: the block ends before it is complete"
    );
    assert_eq!(
        CorruptInput::ZeroOffset.message(),
        "corrupt input: a back-reference has offset zero"
    );
    assert_eq!(
        CorruptInput::OffsetOutOfRange.message(),
        "corrupt input: a back-reference points before the start of the output"
    );
    assert_eq!(
        CorruptInput::LengthMismatch.message(),
        "corrupt input: the decoded length differs from the declared length"
    );
}
