use compression_lib::lz77::{Token, DEFAULT_LOOKAHEAD_SIZE, DEFAULT_WINDOW_SIZE, MIN_MATCH_LENGTH};
use compression_lib::{CompressionError, Compressor, Decompressor, Lz77};

#[test]
fn test_lz77_new() {
    let lz77 = Lz77::new();
    assert_eq!(lz77.window_size(), DEFAULT_WINDOW_SIZE);
    assert_eq!(lz77.lookahead_size(), DEFAULT_LOOKAHEAD_SIZE);
}

#[test]
fn test_lz77_default() {
    let lz77 = Lz77::default();
    assert_eq!(lz77.window_size(), DEFAULT_WINDOW_SIZE);
}

#[test]
fn test_lz77_with_config() {
    let lz77 = Lz77::with_config(1024, 32);
    assert_eq!(lz77.window_size(), 1024);
    assert_eq!(lz77.lookahead_size(), 32);
}

#[test]
fn lz77_test_compress_empty() {
    let lz77 = Lz77::new();
    let result = lz77.compress(&[]).unwrap();
    assert!(result.is_empty());
}

#[test]
fn lz77_test_decompress_empty() {
    let lz77 = Lz77::new();
    let result = lz77.decompress(&[]).unwrap();
    assert!(result.is_empty());
}

#[test]
fn lz77_test_compress_single_byte() {
    let lz77 = Lz77::new();
    let result = lz77.compress(&[0x42]).unwrap();
    assert_eq!(result.len(), 8); // 4 bytes header + 4 bytes token
}

#[test]
fn lz77_test_roundtrip_simple() {
    let lz77 = Lz77::new();
    let input = b"hello";
    let compressed = lz77.compress(input).unwrap();
    let decompressed = lz77.decompress(&compressed).unwrap();
    assert_eq!(decompressed, input);
}

#[test]
fn test_roundtrip_repeated_pattern() {
    let lz77 = Lz77::new();
    let input = b"abcabcabcabc";
    let compressed = lz77.compress(input).unwrap();
    let decompressed = lz77.decompress(&compressed).unwrap();
    assert_eq!(decompressed, input);
}

#[test]
fn lz77_test_roundtrip_all_same() {
    let lz77 = Lz77::new();
    let input = vec![0xAA; 100];
    let compressed = lz77.compress(&input).unwrap();
    let decompressed = lz77.decompress(&compressed).unwrap();
    assert_eq!(decompressed, input);
}

#[test]
fn lz77_test_roundtrip_binary_data() {
    let lz77 = Lz77::new();
    let input: Vec<u8> = (0..=255).collect();
    let compressed = lz77.compress(&input).unwrap();
    let decompressed = lz77.decompress(&compressed).unwrap();
    assert_eq!(decompressed, input);
}

#[test]
fn test_roundtrip_long_repeated() {
    let lz77 = Lz77::new();
    let input = b"the quick brown fox jumps over the lazy dog. the quick brown fox jumps over the lazy dog.";
    let compressed = lz77.compress(input).unwrap();
    let decompressed = lz77.decompress(&compressed).unwrap();
    assert_eq!(decompressed, input.as_slice());
}

#[test]
fn lz77_test_compression_reduces_size_for_repeated() {
    let lz77 = Lz77::new();
    // Use a large repeated pattern (over 200 chars) to ensure compression is beneficial
    let input = "abcdefghijklmnop".repeat(20);
    let compressed = lz77.compress(input.as_bytes()).unwrap();
    assert!(compressed.len() < input.len());
}

#[test]
fn test_decompress_invalid_length() {
    let lz77 = Lz77::new();
    let result = lz77.decompress(&[1, 2, 3]);
    assert!(matches!(result, Err(CompressionError::CorruptedData)));
}

#[test]
fn test_decompress_invalid_offset() {
    let lz77 = Lz77::new();
    let token = Token::new_match(100, 5, b'x');
    let token_bytes = token.to_bytes();
    let mut bytes = vec![1, 0, 0, 0]; // header: original length = 1
    bytes.extend_from_slice(&token_bytes);
    let result = lz77.decompress(&bytes);
    assert!(matches!(result, Err(CompressionError::CorruptedData)));
}

#[test]
fn test_token_new_literal() {
    let token = Token::new_literal(b'a');
    assert_eq!(token.offset, 0);
    assert_eq!(token.length, 0);
    assert_eq!(token.next, b'a');
}

#[test]
fn test_token_new_match() {
    let token = Token::new_match(10, 5, b'b');
    assert_eq!(token.offset, 10);
    assert_eq!(token.length, 5);
    assert_eq!(token.next, b'b');
}

#[test]
fn test_token_roundtrip() {
    let token = Token::new_match(1000, 15, b'c');
    let bytes = token.to_bytes();
    let recovered = Token::from_bytes(&bytes).unwrap();
    assert_eq!(token, recovered);
}

#[test]
fn test_token_from_bytes_too_short() {
    let result = Token::from_bytes(&[1, 2]);
    assert!(result.is_none());
}

#[test]
fn lz77_test_compressor_name() {
    let lz77 = Lz77::new();
    assert_eq!(Compressor::name(&lz77), "LZ77");
}

#[test]
fn lz77_test_decompressor_name() {
    let lz77 = Lz77::new();
    assert_eq!(Decompressor::name(&lz77), "LZ77");
}

#[test]
fn test_lz77_clone() {
    let lz77 = Lz77::with_config(2048, 20);
    let cloned = lz77.clone();
    assert_eq!(lz77.window_size(), cloned.window_size());
    assert_eq!(lz77.lookahead_size(), cloned.lookahead_size());
}

#[test]
fn test_lz77_debug() {
    let lz77 = Lz77::new();
    let debug_str = format!("{lz77:?}");
    assert!(debug_str.contains("Lz77"));
}

#[test]
fn lz77_test_roundtrip_zeros() {
    let lz77 = Lz77::new();
    let input = vec![0u8; 50];
    let compressed = lz77.compress(&input).unwrap();
    let decompressed = lz77.decompress(&compressed).unwrap();
    assert_eq!(decompressed, input);
}

#[test]
fn lz77_test_roundtrip_alternating() {
    let lz77 = Lz77::new();
    let input: Vec<u8> = (0..100).map(|i| if i % 2 == 0 { 0xAA } else { 0xBB }).collect();
    let compressed = lz77.compress(&input).unwrap();
    let decompressed = lz77.decompress(&compressed).unwrap();
    assert_eq!(decompressed, input);
}

#[test]
fn test_small_window_size() {
    let lz77 = Lz77::with_config(16, 8);
    let input = b"abcdefghijklmnopabcdefghijklmnop";
    let compressed = lz77.compress(input).unwrap();
    let decompressed = lz77.decompress(&compressed).unwrap();
    assert_eq!(decompressed, input.as_slice());
}

#[test]
fn test_find_longest_match_no_match() {
    let lz77 = Lz77::new();
    let data = b"abcdefgh";
    let (offset, length) = lz77.find_longest_match(data, 0);
    assert_eq!(offset, 0);
    assert_eq!(length, 0);
}

#[test]
fn test_find_longest_match_with_match() {
    let lz77 = Lz77::new();
    let data = b"abcabc";
    let (offset, length) = lz77.find_longest_match(data, 3);
    assert_eq!(offset, 3);
    assert_eq!(length, 3);
}

#[test]
fn test_decompress_zero_offset_with_length() {
    let lz77 = Lz77::new();
    let token = Token::new_match(0, 5, b'x');
    let token_bytes = token.to_bytes();
    let mut bytes = vec![1, 0, 0, 0]; // header: original length = 1
    bytes.extend_from_slice(&token_bytes);
    let result = lz77.decompress(&bytes);
    assert!(matches!(result, Err(CompressionError::CorruptedData)));
}

#[test]
fn lz77_constants() {
    assert_eq!(DEFAULT_WINDOW_SIZE, 4096);
    assert_eq!(DEFAULT_LOOKAHEAD_SIZE, 18);
    assert_eq!(MIN_MATCH_LENGTH, 3);
}

#[test]
fn lz77_token_bytes_are_little_endian() {
    assert_eq!(Token::new_match(0x1234, 7, 9).to_bytes(), [0x34, 0x12, 7, 9]);
    assert_eq!(Token::new_match(65535, 255, 255).to_bytes(), [255, 255, 255, 255]);
    assert_eq!(Token::new_literal(b'z').to_bytes(), [0, 0, 0, b'z']);
    assert_eq!(
        Token::from_bytes(&[0x34, 0x12, 7, 9, 99]),
        Some(Token { offset: 0x1234, length: 7, next: 9 })
    );
    assert_eq!(Token::from_bytes(&[1, 2, 3]), None);
    assert_eq!(Token::from_bytes(&[]), None);
}

#[test]
fn lz77_compress_exact_bytes() {
    let lz77 = Lz77::new();
    assert_eq!(lz77.compress(&[0x42]).unwrap(), vec![1, 0, 0, 0, 0, 0, 0, 0x42]);
    assert_eq!(
        lz77.compress(b"abcabc").unwrap(),
        vec![6, 0, 0, 0, 0, 0, 0, 97, 0, 0, 0, 98, 0, 0, 0, 99, 3, 0, 3, 0]
    );
    // A run matches itself one byte back: the copy overlaps what it writes.
    assert_eq!(
        lz77.compress(b"aaaaaaa").unwrap(),
        vec![7, 0, 0, 0, 0, 0, 0, 97, 1, 0, 6, 0]
    );
    // A match that does not end the data is followed by the next literal.
    assert_eq!(
        lz77.compress(b"abcabcd").unwrap(),
        vec![7, 0, 0, 0, 0, 0, 0, 97, 0, 0, 0, 98, 0, 0, 0, 99, 3, 0, 3, 100]
    );
}

#[test]
fn lz77_short_matches_stay_literals() {
    let lz77 = Lz77::new();
    // "ab" repeats, but two bytes are below the minimum match length.
    assert_eq!(
        lz77.compress(b"abxab").unwrap(),
        vec![5, 0, 0, 0, 0, 0, 0, 97, 0, 0, 0, 98, 0, 0, 0, 120, 0, 0, 0, 97, 0, 0, 0, 98]
    );
    assert_eq!(lz77.find_longest_match(b"abxab", 3), (0, 0));
}

#[test]
fn lz77_nearest_of_equally_long_matches_wins() {
    let lz77 = Lz77::new();
    let data = b"abcXabcYabc";
    assert_eq!(lz77.find_longest_match(data, 8), (4, 3));
    // A strictly longer match farther back still wins.
    let data = b"abcdXabcYabcd";
    assert_eq!(lz77.find_longest_match(data, 9), (9, 4));
}

#[test]
fn lz77_match_is_bounded_by_lookahead_and_window() {
    let data = vec![5u8; 100];
    assert_eq!(Lz77::new().find_longest_match(&data, 50), (1, 18));
    assert_eq!(Lz77::with_config(4096, 7).find_longest_match(&data, 50), (1, 7));
    assert_eq!(Lz77::with_config(4096, 2).find_longest_match(&data, 50), (0, 0));
    assert_eq!(Lz77::with_config(0, 18).find_longest_match(&data, 50), (0, 0));
    assert_eq!(Lz77::new().find_longest_match(&data, 95), (1, 5));
    assert_eq!(Lz77::new().find_longest_match(&data, 100), (0, 0));
    assert_eq!(Lz77::new().find_longest_match(&data, 1000), (0, 0));
    let data = b"abcdefabc";
    assert_eq!(Lz77::with_config(5, 18).find_longest_match(data, 6), (0, 0));
    assert_eq!(Lz77::with_config(6, 18).find_longest_match(data, 6), (6, 3));
    assert_eq!(
        Lz77::with_config(usize::MAX, usize::MAX).find_longest_match(data, 6),
        (6, 3)
    );
}

#[test]
fn lz77_decompress_replays_tokens() {
    let lz77 = Lz77::new();
    let payload = vec![7, 0, 0, 0, 0, 0, 0, 97, 1, 0, 6, 0];
    assert_eq!(lz77.decompress(&payload).unwrap(), b"aaaaaaa");
    let payload = vec![7, 0, 0, 0, 0, 0, 0, 97, 0, 0, 0, 98, 0, 0, 0, 99, 3, 0, 3, 100];
    assert_eq!(lz77.decompress(&payload).unwrap(), b"abcabcd");
}

#[test]
fn lz77_decompress_stops_at_declared_length() {
    let lz77 = Lz77::new();
    // The copy is cut at the declared length and the literal is dropped.
    let payload = vec![3, 0, 0, 0, 0, 0, 0, 97, 1, 0, 9, 122];
    assert_eq!(lz77.decompress(&payload).unwrap(), b"aaa");
    // Literals behind the declared length add nothing.
    let payload = vec![1, 0, 0, 0, 0, 0, 0, 97, 0, 0, 0, 98];
    assert_eq!(lz77.decompress(&payload).unwrap(), b"a");
}

#[test]
fn lz77_decompress_rejects_bad_framing() {
    let lz77 = Lz77::new();
    assert_eq!(lz77.decompress(&[1]), Err(CompressionError::CorruptedData));
    assert_eq!(lz77.decompress(&[1, 0, 0, 0, 0, 0, 0]), Err(CompressionError::CorruptedData));
    assert_eq!(
        lz77.decompress(&[1, 0, 0, 0, 0, 0, 0, 97, 0]),
        Err(CompressionError::CorruptedData)
    );
    // The tokens give fewer bytes than the header declares.
    assert_eq!(
        lz77.decompress(&[2, 0, 0, 0, 0, 0, 0, 97]),
        Err(CompressionError::CorruptedData)
    );
    assert_eq!(lz77.decompress(&[1, 0, 0, 0]), Err(CompressionError::CorruptedData));
    // A header that declares nothing, and no tokens.
    assert_eq!(lz77.decompress(&[0, 0, 0, 0]), Ok(vec![]));
}

#[test]
fn lz77_decompress_rejects_invalid_back_references() {
    let lz77 = Lz77::new();
    // Offset 2 with one byte of output.
    assert_eq!(
        lz77.decompress(&[5, 0, 0, 0, 0, 0, 0, 97, 2, 0, 3, 98]),
        Err(CompressionError::CorruptedData)
    );
    // Offset 0 with a length.
    assert_eq!(
        lz77.decompress(&[5, 0, 0, 0, 0, 0, 0, 97, 0, 0, 3, 98]),
        Err(CompressionError::CorruptedData)
    );
    // An invalid back-reference fails even where the output is complete.
    assert_eq!(
        lz77.decompress(&[1, 0, 0, 0, 0, 0, 0, 97, 9, 0, 3, 98]),
        Err(CompressionError::CorruptedData)
    );
    // With length 0 the offset is not looked at.
    assert_eq!(lz77.decompress(&[2, 0, 0, 0, 9, 9, 0, 97, 0, 0, 0, 98]), Ok(vec![97, 98]));
}

#[test]
fn lz77_roundtrip_under_many_configurations() {
    let mut state: u32 = 99;
    let mut input = Vec::new();
    for _ in 0..3000 {
        state = state.wrapping_mul(1103515245).wrapping_add(12345);
        input.push(((state >> 16) % 4) as u8);
    }
    for (window, lookahead) in [(0, 0), (1, 3), (4, 4), (16, 8), (300, 255), (4096, 18), (65535, 255)] {
        let lz77 = Lz77::with_config(window, lookahead);
        let compressed = lz77.compress(&input).unwrap();
        assert_eq!((compressed.len() - 4) % 4, 0);
        assert_eq!(&compressed[..4], &[184, 11, 0, 0]);
        assert_eq!(lz77.decompress(&compressed).unwrap(), input);
    }
}

#[test]
fn lz77_match_longer_than_the_length_field_is_cut() {
    // A lookahead of 300 lets a match grow beyond what the length field
    // holds; the token then names 255 bytes and decoding comes up short.
    let lz77 = Lz77::with_config(4096, 300);
    let input = vec![b'a'; 400];
    let compressed = lz77.compress(&input).unwrap();
    assert_eq!(
        compressed,
        vec![144, 1, 0, 0, 0, 0, 0, 97, 1, 0, 255, 97, 1, 0, 98, 0]
    );
    assert_eq!(lz77.decompress(&compressed), Err(CompressionError::CorruptedData));
    // With a lookahead that fits, the same data comes back.
    let lz77 = Lz77::with_config(4096, 255);
    let compressed = lz77.compress(&input).unwrap();
    assert_eq!(lz77.decompress(&compressed).unwrap(), input);
}
