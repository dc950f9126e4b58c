//! Constants of the ACELP speech core.

use vstd::prelude::*;

verus! {

/// Samples in one ACELP subframe.
pub const LEN_SUBFR: usize = 64;

/// Order of the linear predictor.
pub const ORDER: usize = 16;

/// The shortest pitch lag of the unscaled grid.
pub const TMIN: i32 = 34;

/// Where the unscaled grid coarsens from quarter to half samples.
pub const TFR2: i32 = 128;

/// Where the grid coarsens from half to whole samples.
pub const TFR1: i32 = 160;

/// The longest pitch lag of the unscaled grid.
pub const TMAX: i32 = 231;

/// The core sampling rate at which the pitch grid is unscaled.
pub const FSCALE_DENOM: i32 = 12_800;

/// Phases per sample of the excitation interpolator.
pub const UP_SAMP: usize = 4;

} // verus!
