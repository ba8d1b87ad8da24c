//! A self-contained, in-memory lossless byte-stream compressor.
//!
//! The pipeline has two stages: a sliding-window dictionary substitution
//! stage (longest backward match, `lz77`) and a static Huffman entropy
//! coding stage (`huffman`, `bitcode`). `codec` composes them into
//! `compress` and `decompress`, whose contracts prove that decompression
//! reproduces the original bytes exactly.

pub mod bitcode;
pub mod book;
pub mod codec;
pub mod config;
pub mod huffman;
pub mod errors;
pub mod lz77;
pub mod symbols;
