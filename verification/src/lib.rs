//! A verified Huffman-coding text compressor: a bit-addressable stream,
//! frequency-derived prefix-code trees, two interchangeable framing
//! strategies, and encode/decode drivers proved to invert each other.

pub mod bit_stream;
pub mod huffman_types;
pub mod compress;
pub mod decompress;
pub mod laws;
