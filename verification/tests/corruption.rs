use lz4_block::{compress, decompress, CorruptInput};

#[test]
fn prefix_shorter_than_four_bytes_is_truncated() {
    assert_eq!(decompress(&[]), Err(CorruptInput::Truncated));
    assert_eq!(decompress(&[0]), Err(CorruptInput::Truncated));
    assert_eq!(decompress(&[0, 0, 0]), Err(CorruptInput::Truncated));
}

#[test]
fn dropping_the_last_byte_is_detected() {
    let inputs: Vec<Vec<u8>> = vec![
        vec![1],
        b"aaaaaaaaaa".to_vec(),
        b"abcdabcdabcdabcdabcdabcd".to_vec(),
        vec![9u8; 400],
        (0..=255u8).collect(),
    ];
    for input in inputs {
        let mut block = compress(&input);
        assert!(block.len() > 4);
        block.pop();
        assert_eq!(decompress(&block), Err(CorruptInput::Truncated));
    }
}

#[test]
fn dropping_the_last_byte_of_a_hand_made_block_is_detected() {
    // Literals "abcd", then a match of four bytes at distance four, and the
    // stream ends behind the match.
    let block = [8u8, 0, 0, 0, 0x40, b'a', b'b', b'c', b'd', 4, 0];
    assert_eq!(decompress(&block), Ok(b"abcdabcd".to_vec()));
    assert_eq!(decompress(&block[..10]), Err(CorruptInput::Truncated));
    // The match length ends in a continuation byte.
    let long = [24u8, 0, 0, 0, 0x1f, b'q', 1, 0, 4];
    assert_eq!(decompress(&long), Ok(vec![b'q'; 24]));
    assert_eq!(decompress(&long[..8]), Err(CorruptInput::Truncated));
}

#[test]
fn every_proper_prefix_of_a_block_is_rejected_or_shorter() {
    let input = b"to be or not to be, that is the question: to be or not to be".to_vec();
    let block = compress(&input);
    for cut in 0..block.len() {
        assert!(decompress(&block[..cut]).is_err());
    }
    assert_eq!(decompress(&block), Ok(input));
}

#[test]
fn bare_final_token_is_accepted() {
    assert_eq!(decompress(&[0, 0, 0, 0, 0x00]), Ok(Vec::new()));
    let block = [8u8, 0, 0, 0, 0x40, b'a', b'b', b'c', b'd', 4, 0, 0x00];
    assert_eq!(decompress(&block), Ok(b"abcdabcd".to_vec()));
}

#[test]
fn dropping_a_bare_final_token_changes_nothing() {
    let block = [8u8, 0, 0, 0, 0x40, b'a', b'b', b'c', b'd', 4, 0, 0x00];
    assert_eq!(decompress(&block[..11]), decompress(&block));
    assert_eq!(decompress(&[0, 0, 0, 0]), decompress(&[0, 0, 0, 0, 0x00]));
}

#[test]
fn bare_token_in_the_middle_needs_an_offset() {
    assert_eq!(decompress(&[4, 0, 0, 0, 0x00, 1]), Err(CorruptInput::Truncated));
}

#[test]
fn literal_run_longer_than_the_stream_is_truncated() {
    assert_eq!(decompress(&[3, 0, 0, 0, 0x30, b'a', b'b']), Err(CorruptInput::Truncated));
}

#[test]
fn unfinished_literal_length_is_truncated() {
    assert_eq!(decompress(&[255, 255, 0, 0, 0xf0]), Err(CorruptInput::Truncated));
    assert_eq!(decompress(&[255, 255, 0, 0, 0xf0, 255, 255]), Err(CorruptInput::Truncated));
}

#[test]
fn half_an_offset_is_truncated() {
    assert_eq!(decompress(&[9, 0, 0, 0, 0x10, b'a', 1]), Err(CorruptInput::Truncated));
}

#[test]
fn unfinished_match_length_is_truncated() {
    assert_eq!(decompress(&[255, 255, 0, 0, 0x1f, b'a', 1, 0]), Err(CorruptInput::Truncated));
    assert_eq!(
        decompress(&[255, 255, 0, 0, 0x1f, b'a', 1, 0, 255]),
        Err(CorruptInput::Truncated)
    );
}

#[test]
fn offset_zero_is_rejected() {
    assert_eq!(
        decompress(&[10, 0, 0, 0, 0x10, b'a', 0, 0, 0x50, b'a', b'a', b'a', b'a', b'a']),
        Err(CorruptInput::ZeroOffset)
    );
}

#[test]
fn offset_before_the_start_of_the_output_is_rejected() {
    // One byte of output so far, offset two.
    assert_eq!(
        decompress(&[10, 0, 0, 0, 0x10, b'a', 2, 0, 0x50, b'a', b'a', b'a', b'a', b'a']),
        Err(CorruptInput::OffsetOutOfRange)
    );
    // No output at all, offset one.
    assert_eq!(decompress(&[4, 0, 0, 0, 0x00, 1, 0]), Err(CorruptInput::OffsetOutOfRange));
    // In a later sequence: eight bytes of output, offset nine.
    assert_eq!(
        decompress(&[12, 0, 0, 0, 0x40, b'a', b'b', b'c', b'd', 4, 0, 0x00, 9, 0]),
        Err(CorruptInput::OffsetOutOfRange)
    );
    assert_eq!(
        decompress(&[12, 0, 0, 0, 0x40, b'a', b'b', b'c', b'd', 4, 0, 0x00, 8, 0]),
        Ok(b"abcdabcdabcd".to_vec())
    );
}

#[test]
fn changed_offset_in_a_compressed_block_is_rejected() {
    let mut block = compress(b"aaaaaaaaaa");
    assert_eq!(&block[6..8], &[1u8, 0]);
    block[6] = 2;
    assert_eq!(decompress(&block), Err(CorruptInput::OffsetOutOfRange));
    block[6] = 0;
    assert_eq!(decompress(&block), Err(CorruptInput::ZeroOffset));
    block[7] = 0xff;
    assert_eq!(decompress(&block), Err(CorruptInput::OffsetOutOfRange));
}

#[test]
fn fewer_bytes_than_declared_is_a_length_mismatch() {
    assert_eq!(decompress(&[1, 0, 0, 0]), Err(CorruptInput::LengthMismatch));
    assert_eq!(decompress(&[3, 0, 0, 0, 0x20, b'a', b'b']), Err(CorruptInput::LengthMismatch));
    assert_eq!(
        decompress(&[9, 0, 0, 0, 0x40, b'a', b'b', b'c', b'd', 4, 0]),
        Err(CorruptInput::LengthMismatch)
    );
}

#[test]
fn more_bytes_than_declared_is_a_length_mismatch() {
    assert_eq!(decompress(&[1, 0, 0, 0, 0x20, b'a', b'b']), Err(CorruptInput::LengthMismatch));
    assert_eq!(
        decompress(&[7, 0, 0, 0, 0x40, b'a', b'b', b'c', b'd', 4, 0]),
        Err(CorruptInput::LengthMismatch)
    );
    // The literals do not fit, and the stream is short as well: the length
    // is checked first.
    assert_eq!(decompress(&[1, 0, 0, 0, 0x30, b'a']), Err(CorruptInput::LengthMismatch));
}

#[test]
fn declared_length_changed_is_a_length_mismatch() {
    let mut block = compress(b"hello hello hello hello hello");
    block[0] += 1;
    assert_eq!(decompress(&block), Err(CorruptInput::LengthMismatch));
    block[0] -= 2;
    assert_eq!(decompress(&block), Err(CorruptInput::LengthMismatch));
}

#[test]
fn huge_lengths_do_not_overflow() {
    let mut block = vec![0xffu8, 0xff, 0xff, 0xff, 0x1f, b'a', 1, 0];
    block.resize(block.len() + 20_000_000, 255);
    assert_eq!(decompress(&block), Err(CorruptInput::Truncated));
    block.push(0);
    assert_eq!(decompress(&block), Err(CorruptInput::LengthMismatch));
    let mut literals = vec![0xffu8, 0xff, 0xff, 0xff, 0xf0];
    literals.resize(literals.len() + 17_000_000, 255);
    literals.push(1);
    assert_eq!(decompress(&literals), Err(CorruptInput::LengthMismatch));
}

#[test]
fn overlapping_match_repeats_the_pattern() {
    let block = [11u8, 0, 0, 0, 0x25, b'x', b'y', 2, 0];
    assert_eq!(decompress(&block), Ok(b"xyxyxyxyxyx".to_vec()));
}

#[test]
fn final_token_may_carry_a_match_nibble() {
    assert_eq!(decompress(&[2, 0, 0, 0, 0x2f, b'o', b'k']), Ok(b"ok".to_vec()));
}
