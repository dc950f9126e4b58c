//! Signal processing arithmetic.

pub mod fft;
pub mod filterbank;
pub mod math;
pub mod peak_limiter;
pub mod qmf;
