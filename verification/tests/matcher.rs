use lz4_block::{compress, decompress};

fn noise(len: usize, mut state: u32) -> Vec<u8> {
    let mut bytes = Vec::with_capacity(len);
    for _ in 0..len {
        state = state.wrapping_mul(1664525).wrapping_add(1013904223);
        bytes.push((state >> 24) as u8);
    }
    bytes
}

#[test]
fn earlier_occurrence_is_found_through_the_table() {
    let input = b"abcd-wxyz+abcd01234";
    let block = compress(input);
    // Ten literals, then "abcd" again as a match at distance ten.
    assert_eq!(
        block,
        vec![
            19u8, 0, 0, 0, 0xa0, b'a', b'b', b'c', b'd', b'-', b'w', b'x', b'y', b'z', b'+', 10, 0,
            0x50, b'0', b'1', b'2', b'3', b'4'
        ]
    );
    assert_eq!(decompress(&block), Ok(input.to_vec()));
}

#[test]
fn later_word_in_the_same_bucket_replaces_the_earlier_one() {
    // The words 0x64636261 ("abcd") and 0x55d83310 fall into bucket 25357:
    // multiplied by 2654435761 they differ in the lowest bit only. The second
    // word takes the bucket, so the second "abcd" finds no "abcd" to refer to.
    let mut input = b"abcd-".to_vec();
    input.extend_from_slice(&[0x10, 0x33, 0xd8, 0x55]);
    input.extend_from_slice(b"+abcd01234");
    let block = compress(&input);
    let mut expected = vec![19u8, 0, 0, 0, 0xf0, 4];
    expected.extend_from_slice(&input);
    assert_eq!(block, expected);
    assert_eq!(decompress(&block), Ok(input));
}

#[test]
fn most_recent_occurrence_wins() {
    let input = b"abcd1abcd22abcd333333";
    let block = compress(input);
    // The second "abcd" refers five bytes back, the third six bytes back
    // to the second, not to the first.
    assert_eq!(
        block,
        vec![
            21u8, 0, 0, 0, 0x50, b'a', b'b', b'c', b'd', b'1', 5, 0, 0x20, b'2', b'2', 6, 0, 0x60,
            b'3', b'3', b'3', b'3', b'3', b'3'
        ]
    );
    assert_eq!(decompress(&block), Ok(input.to_vec()));
}

#[test]
fn match_at_the_largest_offset() {
    let mut input = b"ABCDEFGH".to_vec();
    input.extend_from_slice(&noise(65_527, 1));
    input.extend_from_slice(b"ABCDEFGHtail!");
    assert_eq!(input.len(), 65_548);
    let block = compress(&input);
    assert_eq!(block.len(), 65_808);
    // "DEFGH" is copied from 65535 bytes back.
    assert_eq!(
        &block[block.len() - 12..],
        &[130u8, b'A', b'B', b'C', 255, 255, 0x50, b't', b'a', b'i', b'l', b'!']
    );
    assert_eq!(decompress(&block), Ok(input));
}

#[test]
fn no_match_beyond_the_largest_offset() {
    let mut input = b"ABCDEFGH".to_vec();
    input.extend_from_slice(&noise(65_527, 1));
    input.extend_from_slice(b"?ABCDEFGHtail!");
    assert_eq!(input.len(), 65_549);
    let block = compress(&input);
    assert_eq!(block.len(), 65_811);
    assert_eq!(
        &block[block.len() - 16..],
        &[
            182u8, 130, b'?', b'A', b'B', b'C', b'D', b'E', b'F', b'G', b'H', b't', b'a', b'i',
            b'l', b'!'
        ]
    );
    assert_eq!(decompress(&block), Ok(input));
}

#[test]
fn text_with_repeats() {
    let input = b"to be or not to be, that is the question: to be or not to be";
    let block = compress(input);
    assert_eq!(
        block,
        vec![
            60u8, 0, 0, 0, 209, 116, 111, 32, 98, 101, 32, 111, 114, 32, 110, 111, 116, 32, 13, 0,
            242, 8, 44, 32, 116, 104, 97, 116, 32, 105, 115, 32, 116, 104, 101, 32, 113, 117, 101,
            115, 116, 105, 111, 110, 58, 29, 0, 4, 42, 0, 80, 116, 111, 32, 98, 101
        ]
    );
    assert_eq!(decompress(&block), Ok(input.to_vec()));
}

#[test]
fn block_ends_with_the_last_five_bytes() {
    for len in 5..200usize {
        let input: Vec<u8> = (0..len).map(|i| (i % 7) as u8 + b'a').collect();
        let block = compress(&input);
        assert_eq!(&block[block.len() - 5..], &input[len - 5..]);
    }
}

#[test]
fn inputs_below_nine_bytes_are_one_literal_run() {
    for len in 1..9usize {
        let input = vec![b'x'; len];
        let mut expected = vec![len as u8, 0, 0, 0, 16 * len as u8];
        expected.extend_from_slice(&input);
        assert_eq!(compress(&input), expected);
    }
}
