//! Spectral band replication encoding, which is not implemented.
//!
//! Returning a wrong payload is worse than returning nothing, because a caller
//! who wires it up gets a stream that looks like HE-AAC and is not. The
//! encoder refuses the work.

use crate::error::{Error, ErrorView, Result};
use vstd::prelude::*;

verus! {

/// SBR encoder configuration.
#[derive(Debug, Clone, Copy, PartialEq, Eq, Structural)]
pub struct SbrEncoder {
    sample_rate: u32,
    bitrate: u32,
}

impl SbrEncoder {
    pub closed spec fn rate(self) -> u32 {
        self.sample_rate
    }

    pub closed spec fn target(self) -> u32 {
        self.bitrate
    }

    /// Create an SBR encoder for a target rate.
    pub fn new(sample_rate: u32, bitrate: u32) -> (r: Self)
        ensures
            r.rate() == sample_rate,
            r.target() == bitrate,
    {
        SbrEncoder { sample_rate, bitrate }
    }

    /// The core sampling rate this encoder was configured for.
    pub fn sample_rate(&self) -> (r: u32)
        ensures
            r == self.rate(),
    {
        self.sample_rate
    }

    /// The target bitrate this encoder was configured for.
    pub fn bitrate(&self) -> (r: u32)
        ensures
            r == self.target(),
    {
        self.bitrate
    }

    /// Produces the SBR extension payload of a frame: always refused.
    pub fn encode_sbr_frame<T>(&mut self, _pcm_frame: &[T]) -> (r: Result<Vec<u8>>)
        ensures
            *final(self) == *old(self),
            r matches Err(e) && e@ == (ErrorView::Unimplemented {
                tool: "SBR encode"@,
                detail: "no envelope data is produced"@,
            }),
    {
        Err(Error::Unimplemented { tool: "SBR encode", detail: "no envelope data is produced" })
    }
}

} // verus!
