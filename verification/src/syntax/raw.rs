//! Raw AAC bitstream container.
//!
//! Bare raw AAC frame payload wrapping with AudioSpecificConfig metadata.

use crate::syntax::asc::AudioSpecificConfig;
use vstd::prelude::*;

verus! {

/// Raw AAC audio payload with associated AudioSpecificConfig.
#[derive(Debug, Clone, PartialEq)]
pub struct RawAudioFrame {
    pub config: AudioSpecificConfig,
    pub raw_data: Vec<u8>,
}

impl RawAudioFrame {
    pub fn new(config: AudioSpecificConfig, raw_data: Vec<u8>) -> (r: Self)
        ensures
            r.config == config,
            r.raw_data == raw_data,
    {
        Self { config, raw_data }
    }

    pub fn data(&self) -> (r: &[u8])
        ensures
            r@ == self.raw_data@,
    {
        self.raw_data.as_slice()
    }

    pub fn config(&self) -> (r: &AudioSpecificConfig)
        ensures
            *r == self.config,
    {
        &self.config
    }
}

} // verus!
