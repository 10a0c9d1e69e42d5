use lz4_block::{compress, decompress};
use lz4_flex::block::{compress_prepend_size, decompress_size_prepended};

fn samples() -> Vec<Vec<u8>> {
    let mut state: u32 = 2024;
    let mut mixed = Vec::new();
    for i in 0..6000u32 {
        state = state.wrapping_mul(1664525).wrapping_add(1013904223);
        if i % 97 < 40 {
            mixed.push(b'=');
        } else {
            mixed.push((state >> 27) as u8 + b'a');
        }
    }
    vec![
        vec![42],
        b"abc".to_vec(),
        b"aaaaaaaaaa".to_vec(),
        b"Hello people, what's up?".to_vec(),
        b"abcdabcdabcdabcdabcdabcdabcdabcdabcdabcd".to_vec(),
        vec![0u8; 5000],
        (0..2000u32).map(|i| (i % 256) as u8).collect(),
        mixed,
    ]
}

#[test]
fn blocks_of_this_codec_are_read_by_lz4_flex() {
    for input in samples() {
        let block = compress(&input);
        assert_eq!(decompress_size_prepended(&block).unwrap(), input);
    }
}

#[test]
fn blocks_of_lz4_flex_are_read_by_this_codec() {
    for input in samples() {
        let block = compress_prepend_size(&input);
        assert_eq!(decompress(&block), Ok(input));
    }
}

#[test]
fn the_empty_block_of_lz4_flex_is_read_by_this_codec() {
    assert_eq!(compress_prepend_size(&[]), vec![0u8, 0, 0, 0, 0]);
    assert_eq!(decompress(&compress_prepend_size(&[])), Ok(Vec::new()));
}

#[test]
fn the_empty_block_of_this_codec_has_no_token() {
    assert_eq!(compress(&[]), vec![0u8, 0, 0, 0]);
    assert!(decompress_size_prepended(&compress(&[])).is_err());
}
