//! The RAR5/RAR7 compression codec.

pub mod bits;
pub mod block;
pub mod bitstream;
pub mod decode;
pub mod dispatch;
pub mod encode;
pub mod error;
pub mod filtered;
pub mod filters;
pub mod greedy;
pub mod huffman;
pub mod format_laws;
pub mod laws;
pub mod levels;
pub mod lz;
pub mod match_finder;
pub mod matching;
pub mod parse;
pub mod rar50;
pub mod roundtrip;
pub mod slots;
pub mod streaming;
pub mod symbols;
pub mod tables;
pub mod versioned;
pub mod window;
