//! Side information of an individual channel stream.

use vstd::prelude::*;

verus! {

/// The longest temporal noise shaping filter a stream can carry.
pub const MAX_TNS_ORDER: usize = 20;

/// A temporal noise shaping filter as the bitstream carries it.
#[derive(Debug, Clone, Copy, PartialEq, Eq)]
pub struct TnsFilterSpec {
    /// First band the filter covers.
    pub start_band: usize,
    /// One past the last band the filter covers.
    pub stop_band: usize,
    /// Reflection coefficients in use.
    pub order: usize,
    /// Whether the filter runs from high to low frequency.
    pub downward: bool,
    /// Quantized reflection coefficients.
    pub coef: [i8; 20],
    /// Coefficient resolution: 0 for three bits, 1 for four.
    pub resolution: u8,
}

impl Default for TnsFilterSpec {
    fn default() -> (r: Self)
        ensures
            r.start_band == 0,
            r.stop_band == 0,
            r.order == 0,
            !r.downward,
            forall|i: int| 0 <= i < MAX_TNS_ORDER ==> #[trigger] r.coef@[i] == 0,
            r.resolution == 0,
    {
        TnsFilterSpec {
            start_band: 0,
            stop_band: 0,
            order: 0,
            downward: false,
            coef: [0;20],
            resolution: 0,
        }
    }
}

} // verus!
