//! AAC decoding.

pub mod block;
pub mod complete;
pub mod huffman;
pub mod ics;
pub mod inverse;
pub mod settled;
