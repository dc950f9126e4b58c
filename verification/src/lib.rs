//! The AAC and USAC bitstreams, verified.
//!
//! The crate reads and writes what stands in an AAC or USAC stream: transport
//! headers and configurations, Huffman-coded and arithmetic-coded spectra,
//! noise shaping and dynamic range data, and the frames that hold them. It
//! also holds the integer rules of a codec: band tables, block switching,
//! codebook choice, the rate loop's search, pitch lags, pulse positions and
//! lattice points. Signal processing in floating point is built around it.
//!
//! A bit string is a sequence of booleans. A writer's contract says which bits
//! it appends; a reader's contract says what it makes of the bits in front of
//! it, as a [`bitstream::Cursor`] that moves over them. The public proof
//! functions, whose names start with `law_`, state what holds between the two
//! sides: what was written comes back when it is read, whatever follows it.

pub mod bits;
pub mod bitstream;
pub mod decoder;
pub mod dsp;
pub mod encoder;
pub mod error;
pub mod layouts;
pub mod overflows;
pub mod range;
pub mod readings;
pub mod syntax;
pub mod tables;
pub mod text;
pub mod types;
