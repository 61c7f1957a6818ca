//! The two-stage codec: dictionary tokenization, then a per-object prefix code.

pub mod bits;
pub mod code_length;
pub mod compressor;
pub mod config;
pub mod decompressor;
pub mod hash;
pub mod huffman;
pub mod payload;
pub mod planner;
pub mod prefix_code;
pub mod round_trip;
pub mod symbols;
pub mod tokenizer;

