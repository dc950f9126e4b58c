//! Encoding.

pub mod aac;
pub mod drc;
pub mod engine;
pub mod frames;
pub mod ordering;
pub mod ps;
pub mod sbr;
pub mod usac;
