//! AAC encoding.

pub mod bitstream;
pub mod block_switch;
pub mod codewords;
pub mod elements;
pub mod entropy;
pub mod huffman;
pub mod ics;
pub mod quant;
pub mod rate;
pub mod search;
pub mod sections;
pub mod tns;
