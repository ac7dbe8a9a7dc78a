use png_decode::huffman::huffman_from_bit_length;
use png_decode::{inflate, InflateError};

fn zlib_stored(data: &[u8]) -> Vec<u8> {
    let len = data.len();
    let mut v = vec![0x78, 0x01, 1, (len % 256) as u8, (len / 256) as u8];
    v.push(255 - (len % 256) as u8);
    v.push(255 - (len / 256) as u8);
    v.extend_from_slice(data);
    v.extend_from_slice(&[0, 0, 0, 0]);
    v
}

#[test]
fn stored_block_round_trip() {
    let data = b"hello, stored world".to_vec();
    assert_eq!(inflate(&zlib_stored(&data)), Ok(data));
}

#[test]
fn stored_block_empty() {
    assert_eq!(inflate(&zlib_stored(&[])), Ok(vec![]));
}

#[test]
fn two_stored_blocks() {
    // first block not final, second final
    let mut v = vec![0x78, 0x01, 0, 2, 0, 253, 255, b'a', b'b', 1, 1, 0, 254, 255, b'c'];
    v.extend_from_slice(&[0, 0, 0, 0]);
    assert_eq!(inflate(&v), Ok(b"abc".to_vec()));
}

#[test]
fn fixed_literal_a() {
    let v = [120u8, 1, 115, 4, 0, 0, 0, 0, 0];
    assert_eq!(inflate(&v), Ok(vec![65u8]));
}

#[test]
fn back_reference_overlap() {
    // literal 'a', then length 10 at distance 1
    let v = [120u8, 1, 75, 68, 0, 0, 0, 0, 0, 0];
    assert_eq!(inflate(&v), Ok(vec![b'a'; 11]));
}

#[test]
fn dynamic_code_length_symbol_18_max_run() {
    // code lengths: 18 (+54) for 65 zeros, 1 for 'A', 18 (+127) for 138 zeros,
    // 18 (+41) for 52 zeros, 1 for end of block, 0 for the distance code
    let v = [120u8, 1, 5, 192, 129, 8, 0, 0, 0, 0, 32, 182, 253, 165, 14, 1, 0, 0, 0, 0];
    assert_eq!(inflate(&v), Ok(b"AAA".to_vec()));
}

fn round_trip(data: &[u8]) {
    for level in [0u8, 1, 6, 9, 10] {
        let z = miniz_oxide::deflate::compress_to_vec_zlib(data, level);
        assert_eq!(inflate(&z), Ok(data.to_vec()), "level {}", level);
    }
}

#[test]
fn round_trip_text() {
    let text = b"It was the best of times, it was the worst of times, it was the age of wisdom, it was the age of foolishness".repeat(20);
    round_trip(&text);
}

#[test]
fn round_trip_binary() {
    let mut x: u32 = 12345;
    let mut data = Vec::new();
    for _ in 0..5000 {
        x = x.wrapping_mul(1103515245).wrapping_add(12345);
        data.push((x >> 16) as u8 % 7);
    }
    round_trip(&data);
}

#[test]
fn round_trip_empty_and_runs() {
    round_trip(&[]);
    round_trip(&[0u8; 70000]);
    round_trip(&[200u8, 201, 202, 255, 254, 253, 200, 201, 202]);
}

#[test]
fn error_too_short() {
    assert_eq!(inflate(&[0x78, 0x01, 0, 0, 0]), Err(InflateError::TooShort));
}

#[test]
fn error_reserved_block_type() {
    assert_eq!(inflate(&[120u8, 1, 7, 0, 0, 0, 0]), Err(InflateError::ReservedBlockType));
}

#[test]
fn error_truncated() {
    assert_eq!(inflate(&[120u8, 1, 115, 4, 0, 0, 0, 0]), Err(InflateError::Truncated));
    assert_eq!(inflate(&[120u8, 1, 0, 0, 0, 0]), Err(InflateError::Truncated));
    // stored block announcing more bytes than there are
    assert_eq!(inflate(&[120u8, 1, 1, 5, 0, 250, 255, 1, 2, 0, 0, 0, 0]), Err(InflateError::Truncated));
}

#[test]
fn error_distance_too_far() {
    assert_eq!(inflate(&[120u8, 1, 3, 2, 0, 0, 0, 0, 0]), Err(InflateError::DistanceTooFar));
}

#[test]
fn error_invalid_code() {
    // fixed code of symbol 286, which is never decoded
    assert_eq!(inflate(&[120u8, 1, 27, 3, 0, 0, 0, 0, 0]), Err(InflateError::InvalidCode));
}

#[test]
fn error_invalid_distance_symbol() {
    let v = [120u8, 1, 13, 222, 129, 0, 0, 0, 0, 128, 32, 214, 253, 37, 222, 36, 2, 0, 0, 0, 0];
    assert_eq!(inflate(&v), Err(InflateError::InvalidDistanceSymbol));
}

#[test]
fn error_repeat_without_length() {
    let v = [120u8, 1, 5, 0, 130, 0, 0, 0, 0, 0];
    assert_eq!(inflate(&v), Err(InflateError::RepeatWithoutLength));
}

#[test]
fn canonical_codes_rfc_example() {
    // lengths (3, 3, 3, 3, 3, 2, 4, 4) give 010 011 100 101 110 00 1110 1111
    let code = huffman_from_bit_length(&[3, 3, 3, 3, 3, 2, 4, 4], 7);
    assert_eq!(code.codes, vec![2, 3, 4, 5, 6, 0, 14, 15]);
    assert_eq!(code.n, 8);
}

#[test]
fn canonical_codes_fixed_literals() {
    let mut lens = vec![8usize; 288];
    for l in lens.iter_mut().take(256).skip(144) {
        *l = 9;
    }
    for l in lens.iter_mut().take(280).skip(256) {
        *l = 7;
    }
    let code = huffman_from_bit_length(&lens, 285);
    assert_eq!(code.codes[65], 0x30 + 65);
    assert_eq!(code.codes[144], 0x190);
    assert_eq!(code.codes[256], 0);
    assert_eq!(code.codes[280], 0xC0);
    assert_eq!(code.n, 286);
}
