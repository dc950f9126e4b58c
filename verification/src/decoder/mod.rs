//! Decoding.

pub mod aac;
pub mod drc;
pub mod usac;
