use lzhuff::bitcode::{decode_bits, encode_bits, pack_bits, unpack_bits};
use lzhuff::book::CodeEntry;
use lzhuff::codec::{compress, decompress};
use lzhuff::config::CodecConfig;
use lzhuff::errors::CodecError;
use lzhuff::huffman::build_codebook;
use lzhuff::lz77::{find_longest_match, lz77_decode, lz77_encode, Token};

fn default_cfg() -> CodecConfig {
    CodecConfig::new(255, 2)
}

fn is_prefix(p: &[bool], q: &[bool]) -> bool {
    p.len() <= q.len() && p.iter().zip(q.iter()).all(|(a, b)| a == b)
}

#[test]
fn finder_reports_no_match_at_start() {
    let cfg = default_cfg();
    let (offset, length) = find_longest_match(b"ABC", 0, &cfg);
    assert_eq!(length, 0);
    assert_eq!(offset, 0);
}

#[test]
fn finder_extends_overlapping_run() {
    let cfg = default_cfg();
    // The run may read bytes the copy itself will produce.
    let (offset, length) = find_longest_match(b"AAAA", 1, &cfg);
    assert_eq!((offset, length), (1, 3));
}

#[test]
fn finder_finds_earlier_pattern() {
    let cfg = default_cfg();
    let (offset, length) = find_longest_match(b"ABAB", 2, &cfg);
    assert_eq!((offset, length), (2, 2));
}

#[test]
fn finder_prefers_largest_offset_on_ties() {
    let cfg = default_cfg();
    // "AB" appears at 0 and at 2; the scan takes the first start position
    // that reaches the maximum, which is the largest offset.
    let (offset, length) = find_longest_match(b"ABXABYAB", 6, &cfg);
    assert_eq!((offset, length), (6, 2));
}

#[test]
fn finder_respects_window() {
    let cfg = CodecConfig::new(2, 2);
    // "AB" at position 0 is outside a window of 2 at cursor 4.
    let (_, length) = find_longest_match(b"ABXXAB", 4, &cfg);
    assert_eq!(length, 0);
}

#[test]
fn encoder_respects_window_bounds() {
    let cfg = CodecConfig::new(8, 2);
    let data = b"ABCABCABCABCABCABCABCABC";
    let tokens = lz77_encode(data, &cfg);
    let mut produced: usize = 0;
    for t in &tokens {
        match *t {
            Token::Literal(_) => produced += 1,
            Token::Match { offset, length } => {
                assert!(offset as usize >= 1);
                assert!(offset as usize <= produced.min(8));
                assert!(length as usize >= 1 && length as usize <= 8);
                produced += length as usize;
            },
        }
    }
    assert_eq!(produced, data.len());
}

#[test]
fn decoder_rejects_offset_before_output_start() {
    let cfg = default_cfg();
    let tokens = [Token::Match { offset: 5, length: 2 }];
    match lz77_decode(&tokens, &cfg) {
        Err(CodecError::CorruptStream) => {},
        other => panic!("offset past produced bytes must be rejected, got {:?}", other),
    }
}

#[test]
fn decoder_replays_overlapping_match() {
    let cfg = default_cfg();
    let tokens = [Token::Literal(7), Token::Match { offset: 1, length: 4 }];
    let out = lz77_decode(&tokens, &cfg).expect("valid tokens decode");
    assert_eq!(out, vec![7, 7, 7, 7, 7]);
}

#[test]
fn codebook_is_prefix_free_with_short_codes() {
    let cfg = default_cfg();
    let data = b"ABRACADABRA, ABRACADABRA!";
    let tokens = lz77_encode(data, &cfg);
    let mut syms = Vec::new();
    for t in &tokens {
        match *t {
            Token::Literal(b) => {
                syms.push(0);
                syms.push(0);
                syms.push(b as u16);
            },
            Token::Match { offset, length } => {
                syms.push(offset);
                syms.push(length);
                syms.push(0);
            },
        }
    }
    let book = build_codebook(&syms);
    assert!(!book.is_empty());
    for e in &book {
        assert!(e.code.len() >= 1);
    }
    for (i, a) in book.iter().enumerate() {
        for (j, b) in book.iter().enumerate() {
            if i != j {
                assert!(!is_prefix(&a.code, &b.code));
                assert_ne!(a.symbol, b.symbol);
            }
        }
    }
}

#[test]
fn singleton_alphabet_gets_one_bit_code() {
    let syms = vec![9u16, 9, 9, 9];
    let book = build_codebook(&syms);
    assert_eq!(book.len(), 1);
    assert_eq!(book[0].symbol, 9);
    assert_eq!(book[0].code, vec![false]);
}

#[test]
fn bit_coder_roundtrips_symbols() {
    let syms = vec![1u16, 2, 3, 1, 1, 2];
    let book = build_codebook(&syms);
    let bits = encode_bits(&syms, &book).expect("all symbols are in the book");
    let back = decode_bits(&bits, &book).expect("own codes decode");
    assert_eq!(back, syms);
}

#[test]
fn bit_encoder_rejects_foreign_symbol() {
    let book = vec![CodeEntry { symbol: 1, code: vec![false] }];
    match encode_bits(&vec![1u16, 2], &book) {
        Err(CodecError::EncodeInconsistency) => {},
        other => panic!("missing symbol must be reported, got {:?}", other),
    }
}

#[test]
fn leftover_bits_are_rejected() {
    let book = vec![
        CodeEntry { symbol: 1, code: vec![false] },
        CodeEntry { symbol: 2, code: vec![true, false] },
    ];
    // A lone 1 bit is a dangling prefix of the code of symbol 2.
    match decode_bits(&vec![true], &book) {
        Err(CodecError::CorruptStream) => {},
        other => panic!("leftover prefix must be rejected, got {:?}", other),
    }
}

#[test]
fn non_prefix_free_book_is_rejected() {
    let book = vec![
        CodeEntry { symbol: 1, code: vec![false] },
        CodeEntry { symbol: 2, code: vec![false, true] },
    ];
    match decode_bits(&vec![false], &book) {
        Err(CodecError::CorruptStream) => {},
        other => panic!("prefix clash must be rejected, got {:?}", other),
    }
}

#[test]
fn misaligned_symbol_count_is_reported() {
    let cfg = default_cfg();
    // One symbol decodes, which is not a multiple of the token width.
    let book = vec![CodeEntry { symbol: 5, code: vec![false] }];
    match decompress(&vec![false], &book, &cfg) {
        Err(CodecError::TokenMisalignment) => {},
        other => panic!("misaligned symbols must be reported, got {:?}", other),
    }
}

#[test]
fn invalid_symbol_group_is_rejected() {
    let cfg = default_cfg();
    // Three symbols decode to the group (0, 3, 0): no token produces it.
    let book = vec![
        CodeEntry { symbol: 0, code: vec![false] },
        CodeEntry { symbol: 3, code: vec![true] },
    ];
    match decompress(&vec![false, true, false], &book, &cfg) {
        Err(CodecError::CorruptStream) => {},
        other => panic!("impossible token group must be rejected, got {:?}", other),
    }
}

#[test]
fn offsets_wider_than_one_byte_survive() {
    // A window above 255 produces offsets that need the full width of the
    // numeric symbol fields.
    let cfg = CodecConfig::new(1000, 2);
    let mut data: Vec<u8> = (0..=255u8).collect();
    data.extend_from_slice(&[1, 2, 3]);
    let data2: Vec<u8> = data.iter().copied().chain(data.iter().copied()).collect();
    let tokens = lz77_encode(&data2, &cfg);
    assert!(tokens.iter().any(|t| matches!(t, Token::Match { offset, .. } if *offset > 255)));
    let (bits, book) = compress(&data2, &cfg);
    let out = decompress(&bits, &book, &cfg).expect("wide offsets decode");
    assert_eq!(out, data2);
}

#[test]
fn packing_tracks_padding_explicitly() {
    let bits = vec![true, false, true, true, false, true, true, true, true, false];
    let (bytes, pad) = pack_bits(&bits);
    assert_eq!(bytes.len(), 2);
    assert_eq!(pad, 6);
    assert_eq!(bytes[0], 0b1011_0111);
    assert_eq!(bytes[1], 0b1000_0000);
    let back = unpack_bits(&bytes, pad).expect("own packing unpacks");
    assert_eq!(back, bits);
}

#[test]
fn packing_empty_bits() {
    let (bytes, pad) = pack_bits(&Vec::new());
    assert_eq!(bytes.len(), 0);
    assert_eq!(pad, 0);
    assert_eq!(unpack_bits(&bytes, pad).expect("empty unpacks"), Vec::<bool>::new());
}

#[test]
fn unpacking_rejects_impossible_padding() {
    match unpack_bits(&vec![0u8], 8) {
        Err(CodecError::CorruptStream) => {},
        other => panic!("padding of 8 must be rejected, got {:?}", other),
    }
    match unpack_bits(&Vec::new(), 1) {
        Err(CodecError::CorruptStream) => {},
        other => panic!("padding without bytes must be rejected, got {:?}", other),
    }
}

#[test]
fn packed_roundtrip_through_bytes() {
    let cfg = default_cfg();
    let data = b"ABRACADABRAABRACADABRA";
    let (bits, book) = compress(data, &cfg);
    let (bytes, pad) = pack_bits(&bits);
    let bits_back = unpack_bits(&bytes, pad).expect("packing preserves bits");
    assert_eq!(bits_back, bits);
    let out = decompress(&bits_back, &book, &cfg).expect("stream decodes");
    assert_eq!(out, data.to_vec());
}
