//! Scalefactor band widths.
//!
//! A spectrum is split into bands whose width grows with frequency; each band
//! has one scalefactor. The widths depend on the sampling rate and on the
//! transform length.

use crate::types::{FrameLength, SamplingRate};
use vstd::prelude::*;

verus! {

/// Band widths at 96 kHz for long windows of 1024 lines.
pub const SFB_96_1024: [u8; 41] = [
    4, 4, 4, 4, 4, 4, 4, 4, 4, 4, 4, 4, 4, 4, 8, 8, 8, 8, 8, 12, 12, 12, 12, 12, 16, 16,
    24, 28, 36, 44, 64, 64, 64, 64, 64, 64, 64, 64, 64, 64, 64,
];

/// Band widths at 64 kHz for long windows of 1024 lines.
pub const SFB_64_1024: [u8; 47] = [
    4, 4, 4, 4, 4, 4, 4, 4, 4, 4, 4, 4, 4, 4, 8, 8, 8, 8, 12, 12, 12, 16, 16, 16, 20, 24,
    24, 28, 36, 40, 40, 40, 40, 40, 40, 40, 40, 40, 40, 40, 40, 40, 40, 40, 40, 40, 40,
];

/// Band widths at 48 kHz for long windows of 1024 lines.
pub const SFB_48_1024: [u8; 49] = [
    4, 4, 4, 4, 4, 4, 4, 4, 4, 4, 8, 8, 8, 8, 8, 8, 8, 12, 12, 12, 12, 16, 16, 20, 20, 24,
    24, 28, 28, 32, 32, 32, 32, 32, 32, 32, 32, 32, 32, 32, 32, 32, 32, 32, 32, 32, 32, 32,
    96,
];

/// Band widths at 44.1 kHz, the same as at 48 kHz.
pub const SFB_44100_1024: [u8; 49] = SFB_48_1024;

/// Band widths at 32 kHz for long windows of 1024 lines.
pub const SFB_32_1024: [u8; 51] = [
    4, 4, 4, 4, 4, 4, 4, 4, 4, 4, 8, 8, 8, 8, 8, 8, 8, 12, 12, 12, 12, 16, 16, 20, 20, 24,
    24, 28, 28, 32, 32, 32, 32, 32, 32, 32, 32, 32, 32, 32, 32, 32, 32, 32, 32, 32, 32, 32,
    32, 32, 32,
];

/// Band widths at 24 kHz for long windows of 1024 lines.
pub const SFB_24_1024: [u8; 47] = [
    4, 4, 4, 4, 4, 4, 4, 4, 4, 4, 4, 8, 8, 8, 8, 8, 8, 8, 8, 8, 8, 12, 12, 12, 12, 16, 16,
    16, 20, 20, 24, 24, 28, 28, 32, 36, 36, 40, 44, 48, 52, 52, 64, 64, 64, 64, 64,
];

/// Band widths at 16 kHz for long windows of 1024 lines.
pub const SFB_16_1024: [u8; 43] = [
    8, 8, 8, 8, 8, 8, 8, 8, 8, 8, 8, 12, 12, 12, 12, 12, 12, 12, 12, 12, 16, 16, 16, 16,
    20, 20, 20, 24, 24, 28, 28, 32, 36, 40, 40, 44, 48, 52, 56, 60, 64, 64, 64,
];

/// Band widths at 8 kHz for long windows of 1024 lines.
pub const SFB_8_1024: [u8; 40] = [
    12, 12, 12, 12, 12, 12, 12, 12, 12, 12, 12, 12, 12, 16, 16, 16, 16, 16, 16, 16, 20, 20,
    20, 20, 24, 24, 24, 28, 28, 32, 36, 36, 40, 44, 48, 52, 56, 60, 64, 80,
];

/// Band widths at 96 kHz for short windows of 128 lines.
pub const SFB_96_128: [u8; 12] = [
    4, 4, 4, 4, 4, 4, 8, 8, 8, 16, 28, 36,
];

/// Band widths at 48 kHz for short windows of 128 lines.
pub const SFB_48_128: [u8; 14] = [
    4, 4, 4, 4, 4, 8, 8, 8, 12, 12, 12, 16, 16, 16,
];

/// Band widths at 24 kHz for short windows of 128 lines.
pub const SFB_24_128: [u8; 15] = [
    4, 4, 4, 4, 4, 4, 4, 8, 8, 8, 12, 12, 16, 16, 20,
];

/// Band widths at 16 kHz for short windows of 128 lines.
pub const SFB_16_128: [u8; 15] = [
    4, 4, 4, 4, 4, 4, 4, 4, 8, 8, 12, 12, 16, 20, 20,
];

/// Band widths at 8 kHz for short windows of 128 lines.
pub const SFB_8_128: [u8; 15] = [
    4, 4, 4, 4, 4, 4, 4, 8, 8, 8, 8, 12, 16, 20, 20,
];

/// Band widths at 96 kHz for long windows of 960 lines.
pub const SFB_96_960: [u8; 40] = [
    4, 4, 4, 4, 4, 4, 4, 4, 4, 4, 4, 4, 4, 4, 8, 8, 8, 8, 8, 12, 12, 12, 12, 12, 16, 16,
    24, 28, 36, 44, 64, 64, 64, 64, 64, 64, 64, 64, 64, 64,
];

/// Band widths at 48 kHz for long windows of 960 lines.
pub const SFB_48_960: [u8; 49] = [
    4, 4, 4, 4, 4, 4, 4, 4, 4, 4, 8, 8, 8, 8, 8, 8, 8, 12, 12, 12, 12, 16, 16, 20, 20, 24,
    24, 28, 28, 32, 32, 32, 32, 32, 32, 32, 32, 32, 32, 32, 32, 32, 32, 32, 32, 32, 32, 32,
    32,
];

/// Band widths at 96 kHz for short windows of 120 lines.
pub const SFB_96_120: [u8; 12] = [
    4, 4, 4, 4, 4, 4, 8, 8, 8, 16, 28, 28,
];

/// Band widths at 48 kHz for long windows of 512 lines.
pub const SFB_48_512: [u8; 36] = [
    4, 4, 4, 4, 4, 4, 4, 4, 4, 4, 4, 4, 4, 4, 4, 8, 8, 8, 8, 8, 12, 12, 12, 12, 16, 20, 24,
    28, 32, 32, 32, 32, 32, 32, 32, 52,
];

/// Band widths at 32 kHz for long windows of 512 lines.
pub const SFB_32_512: [u8; 37] = [
    4, 4, 4, 4, 4, 4, 4, 4, 4, 4, 4, 4, 4, 4, 8, 8, 8, 8, 8, 12, 12, 12, 12, 16, 16, 16, 20,
    24, 24, 28, 32, 32, 32, 32, 32, 32, 32,
];

/// Band widths at 24 kHz for long windows of 512 lines.
pub const SFB_24_512: [u8; 31] = [
    4, 4, 4, 4, 4, 4, 4, 4, 4, 4, 4, 8, 8, 8, 12, 12, 12, 16, 20, 24, 28, 32, 32, 32, 32,
    32, 32, 32, 32, 32, 32,
];

/// Band widths at 48 kHz for long windows of 480 lines.
pub const SFB_48_480: [u8; 35] = [
    4, 4, 4, 4, 4, 4, 4, 4, 4, 4, 4, 4, 4, 4, 8, 8, 8, 8, 8, 12, 12, 12, 12, 12, 16, 16, 24,
    28, 32, 32, 32, 32, 32, 32, 48,
];

/// Band widths at 32 kHz for long windows of 480 lines.
pub const SFB_32_480: [u8; 37] = [
    4, 4, 4, 4, 4, 4, 4, 4, 4, 4, 4, 4, 4, 4, 4, 4, 8, 8, 8, 8, 8, 8, 12, 12, 12, 16, 16,
    20, 24, 32, 32, 32, 32, 32, 32, 32, 32,
];

/// Band widths at 24 kHz for long windows of 480 lines.
pub const SFB_24_480: [u8; 30] = [
    4, 4, 4, 4, 4, 4, 4, 4, 4, 4, 4, 8, 8, 8, 12, 12, 12, 16, 20, 24, 28, 32, 32, 32, 32,
    32, 32, 32, 32, 32,
];

/// The sum of the first `k` widths.
pub open spec fn offset(widths: Seq<u8>, k: int) -> int
    decreases k,
{
    if k <= 0 {
        0
    } else {
        offset(widths, k - 1) + widths[k - 1]
    }
}

/// Whether the first `k` bands divide into tuples: their widths are positive
/// multiples of four.
pub open spec fn divide_into_tuples(widths: Seq<u8>, k: int) -> bool
    decreases k,
{
    k <= 0 || (widths[k - 1] > 0 && widths[k - 1] % 4 == 0 && divide_into_tuples(widths, k - 1))
}

/// The band widths for a sampling rate, window length and frame length. Frames
/// of 768 samples, and short windows of frames of 512 and 480 samples, have no
/// table of their own: they get that of a long window of 1024 lines, which does
/// not fit them.
pub open spec fn sfb_table(rate: SamplingRate, is_short: bool, frame_len: FrameLength) -> Seq<u8> {
    let hz = rate.in_hz();
    match frame_len {
        FrameLength::Samples1024 => if is_short {
            if hz >= 64000 {
                SFB_96_128@
            } else if hz >= 32000 {
                SFB_48_128@
            } else if hz >= 22050 {
                SFB_24_128@
            } else if hz >= 11025 {
                SFB_16_128@
            } else {
                SFB_8_128@
            }
        } else if hz >= 88200 {
            SFB_96_1024@
        } else if hz >= 64000 {
            SFB_64_1024@
        } else if hz >= 44100 {
            SFB_48_1024@
        } else if hz >= 32000 {
            SFB_32_1024@
        } else if hz >= 22050 {
            SFB_24_1024@
        } else if hz >= 11025 {
            SFB_16_1024@
        } else {
            SFB_8_1024@
        },
        FrameLength::Samples960 => if is_short {
            SFB_96_120@
        } else if hz >= 64000 {
            SFB_96_960@
        } else {
            SFB_48_960@
        },
        FrameLength::Samples512 => if is_short {
            SFB_48_1024@
        } else if hz >= 44100 {
            SFB_48_512@
        } else if hz >= 32000 {
            SFB_32_512@
        } else {
            SFB_24_512@
        },
        FrameLength::Samples480 => if is_short {
            SFB_48_1024@
        } else if hz >= 44100 {
            SFB_48_480@
        } else if hz >= 32000 {
            SFB_32_480@
        } else {
            SFB_24_480@
        },
        FrameLength::Samples768 => SFB_48_1024@,
    }
}

/// The scalefactor band width table for a sampling rate, window length and
/// frame length. Frames of 768 samples, and short windows of frames of 512 and
/// 480 samples, are not supported: they get [`SFB_48_1024`].
pub fn get_sfb_table(rate: SamplingRate, is_short: bool, frame_len: FrameLength) -> (r:
    &'static [u8])
    ensures
        r@ == sfb_table(rate, is_short, frame_len),
{
    let hz: u32 = rate.hz();
    match frame_len {
        FrameLength::Samples1024 => if is_short {
            if hz >= 64000 {
                &SFB_96_128
            } else if hz >= 32000 {
                &SFB_48_128
            } else if hz >= 22050 {
                &SFB_24_128
            } else if hz >= 11025 {
                &SFB_16_128
            } else {
                &SFB_8_128
            }
        } else if hz >= 88200 {
            &SFB_96_1024
        } else if hz >= 64000 {
            &SFB_64_1024
        } else if hz >= 44100 {
            &SFB_48_1024
        } else if hz >= 32000 {
            &SFB_32_1024
        } else if hz >= 22050 {
            &SFB_24_1024
        } else if hz >= 11025 {
            &SFB_16_1024
        } else {
            &SFB_8_1024
        },
        FrameLength::Samples960 => if is_short {
            &SFB_96_120
        } else if hz >= 64000 {
            &SFB_96_960
        } else {
            &SFB_48_960
        },
        FrameLength::Samples512 => if is_short {
            &SFB_48_1024
        } else if hz >= 44100 {
            &SFB_48_512
        } else if hz >= 32000 {
            &SFB_32_512
        } else {
            &SFB_24_512
        },
        FrameLength::Samples480 => if is_short {
            &SFB_48_1024
        } else if hz >= 44100 {
            &SFB_48_480
        } else if hz >= 32000 {
            &SFB_32_480
        } else {
            &SFB_24_480
        },
        FrameLength::Samples768 => &SFB_48_1024,
    }
}

/// Offsets grow, by at most 255 lines a band.
pub(crate) proof fn lemma_offset_grows(widths: Seq<u8>, j: int, k: int)
    requires
        0 <= j <= k <= widths.len(),
    ensures
        0 <= offset(widths, j) <= offset(widths, k) <= 255 * k,
    decreases k,
{
    if k > 0 {
        if j < k {
            lemma_offset_grows(widths, j, k - 1);
        } else {
            lemma_offset_grows(widths, k - 1, k - 1);
        }
    }
}

/// Writes the cumulative band offsets, from 0 on, and returns their number.
pub fn compute_sfb_offsets(widths: &[u8], offsets: &mut [usize]) -> (r: usize)
    requires
        widths@.len() < old(offsets)@.len(),
        offset(widths@, widths@.len() as int) <= usize::MAX,
    ensures
        r == widths@.len() + 1,
        final(offsets)@.len() == old(offsets)@.len(),
        forall|k: int|
            0 <= k <= widths@.len() ==> #[trigger] final(offsets)@[k] == offset(widths@, k),
        forall|k: int|
            widths@.len() < k < old(offsets)@.len() ==> #[trigger] final(offsets)@[k] == old(
                offsets,
            )@[k],
{
    offsets[0] = 0;
    let mut sum: usize = 0;
    let mut i: usize = 0;
    while i < widths.len()
        invariant
            i <= widths@.len(),
            widths@.len() < offsets@.len(),
            offset(widths@, widths@.len() as int) <= usize::MAX,
            offsets@.len() == old(offsets)@.len(),
            sum == offset(widths@, i as int),
            forall|k: int| 0 <= k <= i ==> #[trigger] offsets@[k] == offset(widths@, k),
            forall|k: int|
                widths@.len() < k < offsets@.len() ==> #[trigger] offsets@[k] == old(offsets)@[k],
        decreases widths@.len() - i,
    {
        proof {
            lemma_offset_grows(widths@, i + 1, widths@.len() as int);
        }
        sum = sum + widths[i] as usize;
        offsets[i + 1] = sum;
        i += 1;
    }
    widths.len() + 1
}

proof fn lemma_total_96_1024()
    ensures
        offset(SFB_96_1024@, 41) == 1024,
        divide_into_tuples(SFB_96_1024@, 41),
{
    reveal_with_fuel(offset, 42);
    reveal_with_fuel(divide_into_tuples, 42);
}

proof fn lemma_total_64_1024()
    ensures
        offset(SFB_64_1024@, 47) == 1024,
        divide_into_tuples(SFB_64_1024@, 47),
{
    reveal_with_fuel(offset, 48);
    reveal_with_fuel(divide_into_tuples, 48);
}

proof fn lemma_total_48_1024()
    ensures
        offset(SFB_48_1024@, 49) == 1024,
        divide_into_tuples(SFB_48_1024@, 49),
{
    reveal_with_fuel(offset, 50);
    reveal_with_fuel(divide_into_tuples, 50);
}

proof fn lemma_total_32_1024()
    ensures
        offset(SFB_32_1024@, 51) == 1024,
        divide_into_tuples(SFB_32_1024@, 51),
{
    reveal_with_fuel(offset, 52);
    reveal_with_fuel(divide_into_tuples, 52);
}

proof fn lemma_total_24_1024()
    ensures
        offset(SFB_24_1024@, 47) == 1024,
        divide_into_tuples(SFB_24_1024@, 47),
{
    reveal_with_fuel(offset, 48);
    reveal_with_fuel(divide_into_tuples, 48);
}

proof fn lemma_total_16_1024()
    ensures
        offset(SFB_16_1024@, 43) == 1024,
        divide_into_tuples(SFB_16_1024@, 43),
{
    reveal_with_fuel(offset, 44);
    reveal_with_fuel(divide_into_tuples, 44);
}

proof fn lemma_total_8_1024()
    ensures
        offset(SFB_8_1024@, 40) == 1024,
        divide_into_tuples(SFB_8_1024@, 40),
{
    reveal_with_fuel(offset, 41);
    reveal_with_fuel(divide_into_tuples, 41);
}

proof fn lemma_total_96_128()
    ensures
        offset(SFB_96_128@, 12) == 128,
        divide_into_tuples(SFB_96_128@, 12),
{
    reveal_with_fuel(offset, 13);
    reveal_with_fuel(divide_into_tuples, 13);
}

proof fn lemma_total_48_128()
    ensures
        offset(SFB_48_128@, 14) == 128,
        divide_into_tuples(SFB_48_128@, 14),
{
    reveal_with_fuel(offset, 15);
    reveal_with_fuel(divide_into_tuples, 15);
}

proof fn lemma_total_24_128()
    ensures
        offset(SFB_24_128@, 15) == 128,
        divide_into_tuples(SFB_24_128@, 15),
{
    reveal_with_fuel(offset, 16);
    reveal_with_fuel(divide_into_tuples, 16);
}

proof fn lemma_total_16_128()
    ensures
        offset(SFB_16_128@, 15) == 128,
        divide_into_tuples(SFB_16_128@, 15),
{
    reveal_with_fuel(offset, 16);
    reveal_with_fuel(divide_into_tuples, 16);
}

proof fn lemma_total_8_128()
    ensures
        offset(SFB_8_128@, 15) == 128,
        divide_into_tuples(SFB_8_128@, 15),
{
    reveal_with_fuel(offset, 16);
    reveal_with_fuel(divide_into_tuples, 16);
}

proof fn lemma_total_96_960()
    ensures
        offset(SFB_96_960@, 40) == 960,
        divide_into_tuples(SFB_96_960@, 40),
{
    reveal_with_fuel(offset, 41);
    reveal_with_fuel(divide_into_tuples, 41);
}

proof fn lemma_total_48_960()
    ensures
        offset(SFB_48_960@, 49) == 960,
        divide_into_tuples(SFB_48_960@, 49),
{
    reveal_with_fuel(offset, 50);
    reveal_with_fuel(divide_into_tuples, 50);
}

proof fn lemma_total_96_120()
    ensures
        offset(SFB_96_120@, 12) == 120,
        divide_into_tuples(SFB_96_120@, 12),
{
    reveal_with_fuel(offset, 13);
    reveal_with_fuel(divide_into_tuples, 13);
}

proof fn lemma_total_48_512()
    ensures
        offset(SFB_48_512@, 36) == 512,
        divide_into_tuples(SFB_48_512@, 36),
{
    reveal_with_fuel(offset, 37);
    reveal_with_fuel(divide_into_tuples, 37);
}

proof fn lemma_total_32_512()
    ensures
        offset(SFB_32_512@, 37) == 512,
        divide_into_tuples(SFB_32_512@, 37),
{
    reveal_with_fuel(offset, 38);
    reveal_with_fuel(divide_into_tuples, 38);
}

proof fn lemma_total_24_512()
    ensures
        offset(SFB_24_512@, 31) == 512,
        divide_into_tuples(SFB_24_512@, 31),
{
    reveal_with_fuel(offset, 32);
    reveal_with_fuel(divide_into_tuples, 32);
}

proof fn lemma_total_48_480()
    ensures
        offset(SFB_48_480@, 35) == 480,
        divide_into_tuples(SFB_48_480@, 35),
{
    reveal_with_fuel(offset, 36);
    reveal_with_fuel(divide_into_tuples, 36);
}

proof fn lemma_total_32_480()
    ensures
        offset(SFB_32_480@, 37) == 480,
        divide_into_tuples(SFB_32_480@, 37),
{
    reveal_with_fuel(offset, 38);
    reveal_with_fuel(divide_into_tuples, 38);
}

proof fn lemma_total_24_480()
    ensures
        offset(SFB_24_480@, 30) == 480,
        divide_into_tuples(SFB_24_480@, 30),
{
    reveal_with_fuel(offset, 31);
    reveal_with_fuel(divide_into_tuples, 31);
}

/// The bands of every window of a frame of 1024 or 960 samples, and of a long
/// window of 512 or 480 samples, cover its lines exactly.
pub proof fn law_bands_cover_the_window(rate: SamplingRate, is_short: bool, frame_len: FrameLength)
    requires
        frame_len != FrameLength::Samples768,
        is_short ==> frame_len != FrameLength::Samples512 && frame_len != FrameLength::Samples480,
    ensures
        ({
            let widths = sfb_table(rate, is_short, frame_len);
            offset(widths, widths.len() as int) == if is_short {
                frame_len.long() as int / 8
            } else {
                frame_len.long() as int
            }
        }),
{
    lemma_total_96_1024();
    lemma_total_64_1024();
    lemma_total_48_1024();
    lemma_total_32_1024();
    lemma_total_24_1024();
    lemma_total_16_1024();
    lemma_total_8_1024();
    lemma_total_96_128();
    lemma_total_48_128();
    lemma_total_24_128();
    lemma_total_16_128();
    lemma_total_8_128();
    lemma_total_96_960();
    lemma_total_48_960();
    lemma_total_96_120();
    lemma_total_48_512();
    lemma_total_32_512();
    lemma_total_24_512();
    lemma_total_48_480();
    lemma_total_32_480();
    lemma_total_24_480();
}

proof fn lemma_tuple(widths: Seq<u8>, n: int, k: int)
    requires
        divide_into_tuples(widths, n),
        0 <= k < n,
    ensures
        widths[k] > 0,
        widths[k] % 4 == 0,
    decreases n,
{
    if k < n - 1 {
        lemma_tuple(widths, n - 1, k);
    }
}

/// Every band of every window divides into tuples of four lines.
pub proof fn law_bands_divide_into_tuples(
    rate: SamplingRate,
    is_short: bool,
    frame_len: FrameLength,
    k: int,
)
    requires
        0 <= k < sfb_table(rate, is_short, frame_len).len(),
    ensures
        sfb_table(rate, is_short, frame_len)[k] > 0,
        sfb_table(rate, is_short, frame_len)[k] % 4 == 0,
{
    lemma_total_96_1024();
    lemma_total_64_1024();
    lemma_total_48_1024();
    lemma_total_32_1024();
    lemma_total_24_1024();
    lemma_total_16_1024();
    lemma_total_8_1024();
    lemma_total_96_128();
    lemma_total_48_128();
    lemma_total_24_128();
    lemma_total_16_128();
    lemma_total_8_128();
    lemma_total_96_960();
    lemma_total_48_960();
    lemma_total_96_120();
    lemma_total_48_512();
    lemma_total_32_512();
    lemma_total_24_512();
    lemma_total_48_480();
    lemma_total_32_480();
    lemma_total_24_480();
    let widths = sfb_table(rate, is_short, frame_len);
    lemma_tuple(widths, widths.len() as int, k);
}

/// The tables of frames of 1024 samples, by the index of the rate: neighbours
/// in the list of rates share one, short windows more so.
pub proof fn law_tables_of_rates(rate: SamplingRate)
    requires
        rate.index() is Some,
    ensures
        ({
            let i = rate.index()->0;
            let long = sfb_table(rate, false, FrameLength::Samples1024);
            let short = sfb_table(rate, true, FrameLength::Samples1024);
            &&& i == 0 || i == 1 ==> long == SFB_96_1024@ && short == SFB_96_128@
            &&& i == 2 ==> long == SFB_64_1024@ && short == SFB_96_128@
            &&& i == 3 || i == 4 ==> long == SFB_48_1024@ && short == SFB_48_128@
            &&& i == 5 ==> long == SFB_32_1024@ && short == SFB_48_128@
            &&& i == 6 || i == 7 ==> long == SFB_24_1024@ && short == SFB_24_128@
            &&& i == 8 || i == 9 || i == 10 ==> long == SFB_16_1024@ && short == SFB_16_128@
            &&& i == 11 || i == 12 ==> long == SFB_8_1024@ && short == SFB_8_128@
        }),
{
}

/// The tables of shorter frames, by the index of the rate. Frames and windows
/// without one have that of 48000 Hz.
pub proof fn law_tables_of_shorter_frames(rate: SamplingRate)
    requires
        rate.index() is Some,
    ensures
        ({
            let i = rate.index()->0;
            &&& sfb_table(rate, false, FrameLength::Samples960) == if i <= 2 {
                SFB_96_960@
            } else {
                SFB_48_960@
            }
            &&& sfb_table(rate, true, FrameLength::Samples960) == SFB_96_120@
            &&& sfb_table(rate, false, FrameLength::Samples512) == if i <= 4 {
                SFB_48_512@
            } else if i == 5 {
                SFB_32_512@
            } else {
                SFB_24_512@
            }
            &&& sfb_table(rate, false, FrameLength::Samples480) == if i <= 4 {
                SFB_48_480@
            } else if i == 5 {
                SFB_32_480@
            } else {
                SFB_24_480@
            }
            &&& sfb_table(rate, true, FrameLength::Samples512) == SFB_48_1024@
            &&& sfb_table(rate, true, FrameLength::Samples480) == SFB_48_1024@
            &&& sfb_table(rate, false, FrameLength::Samples768) == SFB_48_1024@
            &&& sfb_table(rate, true, FrameLength::Samples768) == SFB_48_1024@
        }),
{
}

/// The offset of a band is where the one before it ends; the first starts at
/// zero.
pub proof fn law_offsets_add_up(widths: Seq<u8>, more: Seq<u8>, k: int)
    requires
        0 <= k <= more.len(),
    ensures
        offset(widths + more, widths.len() + k) == offset(widths, widths.len() as int) + offset(
            more,
            k,
        ),
        offset(widths, 0) == 0,
        widths.len() >= 1 ==> offset(widths, 1) == widths[0],
    decreases k,
{
    if k > 0 {
        law_offsets_add_up(widths, more, k - 1);
    } else {
        lemma_offset_prefix(widths, more, widths.len() as int);
    }
    reveal_with_fuel(offset, 2);
}

proof fn lemma_offset_prefix(widths: Seq<u8>, more: Seq<u8>, k: int)
    requires
        0 <= k <= widths.len(),
    ensures
        offset(widths + more, k) == offset(widths, k),
    decreases k,
{
    if k > 0 {
        lemma_offset_prefix(widths, more, k - 1);
    }
}

} // verus!
