//! Temporal Noise Shaping (TNS) tables: band limits and reflection
//! coefficients for 3-bit and 4-bit precision.

use crate::types::SamplingRate;
use vstd::prelude::*;

verus! {

/// Maximum number of TNS bands per sample rate index (for Long and Short windows).
pub const TNS_MAX_BANDS: [[u8; 2]; 12] = [
    [31, 9],  // 96000 Hz
    [31, 9],  // 88200 Hz
    [34, 10], // 64000 Hz
    [40, 14], // 48000 Hz
    [42, 14], // 44100 Hz
    [51, 14], // 32000 Hz
    [46, 14], // 24000 Hz
    [46, 14], // 22050 Hz
    [42, 14], // 16000 Hz
    [42, 14], // 12000 Hz
    [42, 14], // 11025 Hz
    [39, 14], //  8000 Hz
];

/// 3-bit resolution TNS reflection coefficients in 16-bit Q15 format.
pub const TNS_COEFF3_16: [i16; 8] = [
    -0x7e0e, -0x6eda, -0x5247, -0x2bc7, 0x0000, 0x378a, 0x6413, 0x7cca,
];

/// 4-bit resolution TNS reflection coefficients in 16-bit Q15 format.
pub const TNS_COEFF4_16: [i16; 16] = [
    -0x7f74, -0x7b1d, -0x7295, -0x6625, -0x563c, -0x4362, -0x2e3d, -0x1785, 0x0000, 0x1a9d,
    0x3410, 0x4b3d, 0x5f1f, 0x6eda, 0x79bc, 0x7f4c,
];

/// 3-bit resolution TNS reflection coefficients in 32-bit Q31 format.
pub const TNS_COEFF3_32: [i32; 8] = [
    -0x7e0e2e31,
    -0x6ed9eba0,
    -0x5246dd48,
    -0x2bc750e8,
    0x00000000,
    0x3789809a,
    0x64130dd3,
    0x7cca7014,
];

/// 4-bit resolution TNS reflection coefficients in 32-bit Q31 format.
pub const TNS_COEFF4_32: [i32; 16] = [
    -0x7f7437ac,
    -0x7b1d1a47,
    -0x7294b5f1,
    -0x66256db1,
    -0x563ba8a9,
    -0x4362210d,
    -0x2e3d2aba,
    -0x17851aac,
    0x00000000,
    0x1a9cd9d0,
    0x34101e4a,
    0x4b3c8b41,
    0x5f1f235d,
    0x6ed9eba0,
    0x79bc38e4,
    0x7f4c7e52,
];

/// The row of [`TNS_MAX_BANDS`] for a sampling rate: that of 44100 Hz for a
/// rate without an index, and the last one for an index past the table.
pub open spec fn tns_row(rate: SamplingRate) -> int {
    match rate.index() {
        None => 4,
        Some(i) => if i < 12 {
            i as int
        } else {
            11
        },
    }
}

/// The highest band noise shaping may reach.
pub fn tns_max_band(rate: SamplingRate, short: bool) -> (r: usize)
    ensures
        r == TNS_MAX_BANDS[tns_row(rate)][if short {
            1int
        } else {
            0
        }],
{
    let row: usize = match rate.to_index() {
        None => 4,
        Some(i) => if i < 12 {
            i as usize
        } else {
            11
        },
    };
    let limits: [u8; 2] = TNS_MAX_BANDS[row];
    if short {
        limits[1] as usize
    } else {
        limits[0] as usize
    }
}

/// A rate of the standard table has the row of its index, the lowest rate that
/// of the one before it; a rate that the table does not have is treated as
/// 44100 Hz.
pub proof fn law_rows_of_rates(rate: SamplingRate, hz: u32)
    ensures
        rate.index() matches Some(i) ==> tns_row(rate) == i || (rate.in_hz() == 7350 && tns_row(
            rate,
        ) == tns_row(SamplingRate::Hz8000)),
        rate.index() is None ==> tns_row(rate) == tns_row(SamplingRate::Hz44100),
        0 <= tns_row(rate) < 12,
{
}

} // verus!
