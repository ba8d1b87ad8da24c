use lzhuff::codec::{compress, decompress};
use lzhuff::config::CodecConfig;
use lzhuff::errors::CodecError;
use lzhuff::lz77::{lz77_encode, Token};

fn default_cfg() -> CodecConfig {
    CodecConfig::new(255, 2)
}

fn roundtrip(data: &[u8], cfg: &CodecConfig) -> Vec<u8> {
    let (bits, book) = compress(data, cfg);
    decompress(&bits, &book, cfg).expect("valid stream must decode")
}

#[test]
fn empty_input_compresses_to_nothing() {
    let cfg = default_cfg();
    let (bits, book) = compress(&[], &cfg);
    assert_eq!(bits.len(), 0);
    assert_eq!(book.len(), 0);
    let out = decompress(&bits, &book, &cfg).expect("empty stream decodes");
    assert_eq!(out, Vec::<u8>::new());
}

#[test]
fn single_byte_roundtrip() {
    let cfg = default_cfg();
    let data = b"A";
    let tokens = lz77_encode(data, &cfg);
    assert_eq!(tokens.len(), 1);
    assert!(matches!(tokens[0], Token::Literal(65)));
    let (bits, book) = compress(data, &cfg);
    // Two distinct symbols (the sentinel 0 and the byte), each with the
    // shortest possible code.
    assert!(!book.is_empty());
    for e in &book {
        assert_eq!(e.code.len(), 1);
    }
    let out = decompress(&bits, &book, &cfg).expect("single byte decodes");
    assert_eq!(out, data.to_vec());
}

#[test]
fn run_of_four_uses_one_literal_and_one_match() {
    let cfg = default_cfg();
    let data = b"AAAA";
    let tokens = lz77_encode(data, &cfg);
    assert_eq!(tokens.len(), 2);
    assert!(matches!(tokens[0], Token::Literal(65)));
    match tokens[1] {
        Token::Match { offset, length } => {
            assert_eq!(offset, 1);
            assert_eq!(length, 3);
        },
        _ => panic!("second token must be a match"),
    }
    assert_eq!(roundtrip(data, &cfg), data.to_vec());
}

#[test]
fn abracadabra_matches_earlier_abra() {
    let cfg = default_cfg();
    let data = b"ABRACADABRA";
    let tokens = lz77_encode(data, &cfg);
    assert!(tokens.iter().any(|t| matches!(t, Token::Match { .. })));
    assert_eq!(roundtrip(data, &cfg), data.to_vec());
}

#[test]
fn roundtrip_all_distinct_bytes() {
    let cfg = default_cfg();
    let data: Vec<u8> = (0..=255u8).collect();
    assert_eq!(roundtrip(&data, &cfg), data);
}

#[test]
fn roundtrip_mixed_text() {
    let cfg = default_cfg();
    let data = b"the quick brown fox jumps over the lazy dog; the quick brown fox again";
    assert_eq!(roundtrip(data, &cfg), data.to_vec());
}

#[test]
fn roundtrip_pseudo_random_bytes() {
    let cfg = default_cfg();
    // A fixed linear congruential stream: arbitrary-looking but reproducible.
    let mut x: u32 = 12345;
    let mut data = Vec::new();
    for _ in 0..2000 {
        x = x.wrapping_mul(1103515245).wrapping_add(12721);
        data.push((x >> 16) as u8);
    }
    assert_eq!(roundtrip(&data, &cfg), data);
}

#[test]
fn roundtrip_small_window() {
    let cfg = CodecConfig::new(4, 2);
    let data = b"AAAAAAAAAAAAABCABCABCABC";
    assert_eq!(roundtrip(data, &cfg), data.to_vec());
}

#[test]
fn roundtrip_min_match_one() {
    let cfg = CodecConfig::new(16, 1);
    let data = b"ababababcdcdcdcd";
    assert_eq!(roundtrip(data, &cfg), data.to_vec());
}

#[test]
fn repetitive_input_compresses_below_raw_size() {
    let cfg = default_cfg();
    let data = vec![65u8; 1000];
    let (bits, book) = compress(&data, &cfg);
    assert!(bits.len() < 8 * data.len());
    let out = decompress(&bits, &book, &cfg).expect("repetitive stream decodes");
    assert_eq!(out, data);
}

#[test]
fn same_input_same_output() {
    let cfg = default_cfg();
    let data = b"ABRACADABRAABRACADABRA";
    let (bits1, book1) = compress(data, &cfg);
    let (bits2, book2) = compress(data, &cfg);
    assert_eq!(bits1, bits2);
    assert_eq!(book1.len(), book2.len());
    for (e1, e2) in book1.iter().zip(book2.iter()) {
        assert_eq!(e1.symbol, e2.symbol);
        assert_eq!(e1.code, e2.code);
    }
}

#[test]
fn flipped_final_bit_is_rejected() {
    let cfg = default_cfg();
    let (mut bits, book) = compress(b"AAAA", &cfg);
    let last = bits.len() - 1;
    bits[last] = !bits[last];
    match decompress(&bits, &book, &cfg) {
        Err(CodecError::CorruptStream) => {},
        other => panic!("flipped bit must corrupt the stream, got {:?}", other),
    }
}

#[test]
fn decode_with_wrong_window_is_rejected() {
    let big = CodecConfig::new(255, 2);
    let small = CodecConfig::new(2, 2);
    let data = b"ABCDABCDABCD";
    let (bits, book) = compress(data, &big);
    // The stream holds matches farther back than the small window allows.
    match decompress(&bits, &book, &small) {
        Err(CodecError::CorruptStream) => {},
        other => panic!("window mismatch must be rejected, got {:?}", other),
    }
}
