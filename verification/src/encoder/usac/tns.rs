//! Band ranges of temporal noise shaping in the frequency domain path.
//!
//! The frequency-to-band mapping and the filter's range are integer
//! arithmetic, so that both ends of the chain arrive at the same bands.

use crate::decoder::aac::ics::MAX_TNS_ORDER;
use vstd::prelude::*;

verus! {

/// Sample rate this fixed configuration is tuned for.
pub const SAMPLE_RATE_HZ: u32 = 44_100;

/// Low edge of the analysis range, in hertz.
pub const LPC_START_FREQ_HZ: u32 = 2500;

/// High edge of the analysis range, in hertz.
pub const LPC_STOP_FREQ_HZ: u32 = 16_000;

/// Lowest scalefactor band TNS may shape, for a long window at 44.1 kHz.
pub const MIN_START_BAND: usize = 17;

/// Highest scalefactor band TNS may reach, for a long window at 44.1 kHz.
pub const MAX_STOP_BAND: usize = 42;

/// Filter order the analysis searches.
pub const ORDER: usize = 15;

/// Reflection coefficient width for long windows.
pub const COEF_RES_BITS: u32 = 4;

/// A TNS decision for one frame: the quantized reflection coefficients the
/// bitstream carries, and how many of them are in use.
#[derive(Debug, Clone, Copy, PartialEq, Eq)]
pub struct TnsFilter {
    pub order: usize,
    pub coef: [i8; 20],
}

impl Default for TnsFilter {
    fn default() -> (r: Self)
        ensures
            r.order == 0,
            forall|i: int| 0 <= i < MAX_TNS_ORDER ==> #[trigger] r.coef@[i] == 0,
    {
        TnsFilter { order: 0, coef: [0;20] }
    }
}

/// One past the last coefficient that is large.
pub open spec fn last_large(large: Seq<bool>) -> nat
    decreases large.len(),
{
    if large.len() == 0 {
        0
    } else if large.last() {
        large.len()
    } else {
        last_large(large.drop_last())
    }
}

impl TnsFilter {
    /// The filter with the given quantized coefficients, cut off behind the
    /// last one that is large enough to matter. None if none is.
    pub fn truncated(indices: &[i8], large: &[bool]) -> (r: Option<Self>)
        requires
            indices@.len() == large@.len(),
            indices@.len() <= MAX_TNS_ORDER,
        ensures
            r is None <==> last_large(large@) == 0,
            r matches Some(f) ==> {
                &&& f.order == last_large(large@)
                &&& forall|i: int|
                    0 <= i < MAX_TNS_ORDER ==> #[trigger] f.coef@[i] == if i < indices@.len() {
                        indices@[i]
                    } else {
                        0
                    }
            },
    {
        let mut f = TnsFilter { order: 0, coef: [0;20] };
        let mut i: usize = 0;
        assert(large@.take(0) =~= Seq::<bool>::empty());
        while i < indices.len()
            invariant
                i <= indices@.len() <= MAX_TNS_ORDER,
                indices@.len() == large@.len(),
                f.order == last_large(large@.take(i as int)),
                forall|k: int|
                    0 <= k < MAX_TNS_ORDER ==> #[trigger] f.coef@[k] == if k < i {
                        indices@[k]
                    } else {
                        0
                    },
            decreases indices@.len() - i,
        {
            assert(large@.take(i + 1).drop_last() =~= large@.take(i as int));
            f.coef[i] = indices[i];
            if large[i] {
                f.order = i + 1;
            }
            i += 1;
        }
        assert(large@.take(i as int) =~= large@);
        if f.order == 0 {
            None
        } else {
            Some(f)
        }
    }
}

pub open spec fn smaller(a: usize, b: usize) -> usize {
    if a <= b {
        a
    } else {
        b
    }
}

/// The band range the filter is applied to. It depends on the number of bands
/// alone, so the decoder arrives at the same range without being told.
pub fn filter_band_range(num_sfb: usize) -> (r: (usize, usize))
    ensures
        r == (smaller(MIN_START_BAND, num_sfb), smaller(MAX_STOP_BAND, num_sfb)),
{
    let start: usize = if MIN_START_BAND <= num_sfb {
        MIN_START_BAND
    } else {
        num_sfb
    };
    let stop: usize = if MAX_STOP_BAND <= num_sfb {
        MAX_STOP_BAND
    } else {
        num_sfb
    };
    (start, stop)
}

/// The spectral line nearest to a frequency, if `total` lines span half the
/// sampling rate.
pub open spec fn line_of(freq_hz: int, total: int) -> int {
    (freq_hz * total * 4 / SAMPLE_RATE_HZ as int + 1) / 2
}

/// The first of the bands `b` to `n` that ends above `line`, or `n`.
pub open spec fn band_with(offsets: Seq<usize>, line: int, b: int, n: int) -> int
    decreases n - b,
{
    if b >= n {
        n
    } else if offsets[b + 1] > line {
        b
    } else {
        band_with(offsets, line, b + 1, n)
    }
}

/// The band whose lower edge is nearest to `line`.
pub open spec fn nearest_band(offsets: Seq<usize>, line: int, n: int) -> int {
    if line >= offsets[n] {
        n
    } else {
        let b = band_with(offsets, line, 0, n);
        if b < n && line - offsets[b] > offsets[b + 1] - line {
            b + 1
        } else {
            b
        }
    }
}

/// Which scalefactor band edge a frequency falls closest to.
pub fn freq_to_band(freq_hz: u32, num_bands: usize, offsets: &[usize]) -> (r: usize)
    requires
        num_bands < offsets@.len(),
        forall|k: int| 0 <= k <= num_bands ==> #[trigger] offsets@[k] <= 0x1_0000_0000,
    ensures
        r == nearest_band(
            offsets@,
            line_of(freq_hz as int, offsets@[num_bands as int] as int),
            num_bands as int,
        ),
        r <= num_bands,
{
    let total: i128 = offsets[num_bands] as i128;
    assert(offsets@[num_bands as int] <= 0x1_0000_0000);
    assert(0 <= freq_hz * total <= 0xffff_ffff * 0x1_0000_0000) by (nonlinear_arith)
        requires
            0 <= freq_hz <= 0xffff_ffff,
            0 <= total <= 0x1_0000_0000,
    ;
    let line: i128 = (freq_hz as i128 * total * 4 / (SAMPLE_RATE_HZ as i128) + 1) / 2;
    if line >= total {
        return num_bands;
    }
    let mut band: usize = 0;
    while band < num_bands && offsets[band + 1] as i128 <= line
        invariant
            band <= num_bands < offsets@.len(),
            forall|k: int| 0 <= k <= num_bands ==> #[trigger] offsets@[k] <= 0x1_0000_0000,
            band_with(offsets@, line as int, 0, num_bands as int) == band_with(
                offsets@,
                line as int,
                band as int,
                num_bands as int,
            ),
        decreases num_bands - band,
    {
        band += 1;
    }
    if band < num_bands {
        assert(offsets@[band as int] <= 0x1_0000_0000);
        assert(offsets@[band + 1] <= 0x1_0000_0000);
        let below: i128 = line - offsets[band] as i128;
        let above: i128 = offsets[band + 1] as i128 - line;
        if below > above {
            band += 1;
        }
    }
    band
}

proof fn lemma_band_with(offsets: Seq<usize>, line: int, b: int, n: int)
    requires
        0 <= b <= n < offsets.len(),
        offsets[b] <= line < offsets[n],
    ensures
        ({
            let r = band_with(offsets, line, b, n);
            b <= r < n && offsets[r] <= line < offsets[r + 1]
        }),
    decreases n - b,
{
    if b < n && offsets[b + 1] <= line {
        lemma_band_with(offsets, line, b + 1, n);
    }
}

/// Of all band edges, that of the band a frequency is mapped to is the nearest
/// to its line.
pub proof fn law_nearest_band(offsets: Seq<usize>, line: int, n: int, k: int)
    requires
        0 <= k <= n < offsets.len(),
        offsets[0] <= line,
        forall|i: int, j: int|
            0 <= i <= j <= n ==> (#[trigger] offsets[i]) <= (#[trigger] offsets[j]),
    ensures
        ({
            let r = nearest_band(offsets, line, n);
            let here = if line >= offsets[r] {
                line - offsets[r]
            } else {
                offsets[r] - line
            };
            let there = if line >= offsets[k] {
                line - offsets[k]
            } else {
                offsets[k] - line
            };
            0 <= r <= n && here <= there
        }),
{
    assert(offsets[k] <= offsets[n]);
    if line < offsets[n] {
        lemma_band_with(offsets, line, 0, n);
        let b = band_with(offsets, line, 0, n);
        if k <= b {
            assert(offsets[k] <= offsets[b]);
        } else {
            assert(offsets[b + 1] <= offsets[k]);
        }
    }
}

/// The frame-independent setup: the band range analysis measures over and the
/// band range the filter is applied to.
#[derive(Debug, Clone, Copy, PartialEq, Eq, Structural)]
pub struct TnsSetup {
    pub lpc_start_band: usize,
    pub lpc_stop_band: usize,
    pub start_band: usize,
    pub stop_band: usize,
}

impl TnsSetup {
    /// The setup for a band table.
    pub open spec fn of(offsets: Seq<usize>, num_sfb: int) -> TnsSetup {
        let total = offsets[num_sfb] as int;
        TnsSetup {
            lpc_start_band: nearest_band(
                offsets,
                line_of(LPC_START_FREQ_HZ as int, total),
                num_sfb,
            ) as usize,
            lpc_stop_band: nearest_band(
                offsets,
                line_of(LPC_STOP_FREQ_HZ as int, total),
                num_sfb,
            ) as usize,
            start_band: smaller(MIN_START_BAND, num_sfb as usize),
            stop_band: smaller(MAX_STOP_BAND, num_sfb as usize),
        }
    }

    pub fn new(sfb_offsets: &[usize], num_sfb: usize) -> (r: Self)
        requires
            num_sfb < sfb_offsets@.len(),
            forall|k: int| 0 <= k <= num_sfb ==> #[trigger] sfb_offsets@[k] <= 0x1_0000_0000,
        ensures
            r == Self::of(sfb_offsets@, num_sfb as int),
    {
        let lpc_start_band: usize = freq_to_band(LPC_START_FREQ_HZ, num_sfb, sfb_offsets);
        let lpc_stop_band: usize = freq_to_band(LPC_STOP_FREQ_HZ, num_sfb, sfb_offsets);
        let (start_band, stop_band) = filter_band_range(num_sfb);
        TnsSetup { lpc_start_band, lpc_stop_band, start_band, stop_band }
    }

    /// The length that is sent: from the first filtered band to the end of the
    /// band table, as far as the field can say it.
    pub open spec fn length(self, num_sfb: int) -> int {
        let n = if num_sfb >= self.start_band {
            num_sfb - self.start_band
        } else {
            0
        };
        if n <= 63 {
            n
        } else {
            63
        }
    }

    /// The `length` field that is transmitted. It is informational: the
    /// decoder recomputes the range itself.
    pub fn length_field(&self, num_sfb: usize) -> (r: u8)
        ensures
            r == self.length(num_sfb as int),
    {
        let n: usize = if num_sfb >= self.start_band {
            num_sfb - self.start_band
        } else {
            0
        };
        if n <= 63 {
            n as u8
        } else {
            63
        }
    }
}

/// The order of a filter ends at its last large coefficient.
pub proof fn law_order_ends_at_a_large_coefficient(large: Seq<bool>)
    ensures
        last_large(large) <= large.len(),
        last_large(large) > 0 ==> large[last_large(large) - 1],
        forall|i: int| last_large(large) <= i < large.len() ==> !#[trigger] large[i],
    decreases large.len(),
{
    if large.len() > 0 && !large.last() {
        let before = large.drop_last();
        law_order_ends_at_a_large_coefficient(before);
        assert forall|i: int| last_large(large) <= i < large.len() implies !#[trigger] large[i] by {
            if i < before.len() {
                assert(!before[i]);
            }
        }
    }
}

/// The line of a frequency is the nearest one where the lines span half of
/// 44100 Hz.
pub proof fn law_line_of_a_frequency(freq_hz: int, total: int)
    requires
        freq_hz >= 0,
        total >= 0,
    ensures
        -22_050 <= 44_100 * line_of(freq_hz, total) - 2 * (freq_hz * total) <= 22_050,
{
    let x = freq_hz * total;
    assert(x >= 0) by (nonlinear_arith)
        requires
            freq_hz >= 0,
            total >= 0,
            x == freq_hz * total,
    ;
    assert(freq_hz * total * 4 == 4 * x);
}

/// Of two equally near band edges a frequency is mapped to the lower one.
pub proof fn law_nearest_band_is_the_lowest(offsets: Seq<usize>, line: int, n: int, k: int)
    requires
        0 <= k < nearest_band(offsets, line, n),
        n < offsets.len(),
        offsets[0] <= line,
        forall|i: int, j: int|
            0 <= i < j <= n ==> (#[trigger] offsets[i]) < (#[trigger] offsets[j]),
    ensures
        ({
            let r = nearest_band(offsets, line, n);
            let here = if line >= offsets[r] {
                line - offsets[r]
            } else {
                offsets[r] - line
            };
            let there = if line >= offsets[k] {
                line - offsets[k]
            } else {
                offsets[k] - line
            };
            0 <= n ==> here < there
        }),
{
    if n >= 0 && line < offsets[n] {
        lemma_band_with(offsets, line, 0, n);
        let b = band_with(offsets, line, 0, n);
        let r = nearest_band(offsets, line, n);
        assert(offsets[k] < offsets[r]);
        if k < b {
            assert(offsets[k] < offsets[b]);
        }
    } else if n >= 0 {
        assert(offsets[k] < offsets[n]);
    }
}

/// The analysis starts at the band nearest to 2500 Hz and stops at that
/// nearest to 16000 Hz. The filter covers the bands from 17 to 42 that there
/// are, and the length that is sent goes from the first of them to the end of
/// the table, where six bits can say it.
pub proof fn law_bands_of_a_setup(offsets: Seq<usize>, num_sfb: int)
    requires
        0 <= num_sfb < offsets.len() <= usize::MAX,
    ensures
        ({
            let s = TnsSetup::of(offsets, num_sfb);
            let total = offsets[num_sfb] as int;
            &&& s.start_band <= 17 && s.start_band <= num_sfb
            &&& s.start_band == 17 || s.start_band == num_sfb
            &&& s.stop_band <= 42 && s.stop_band <= num_sfb
            &&& s.stop_band == 42 || s.stop_band == num_sfb
            &&& s.lpc_start_band == nearest_band(offsets, line_of(2500, total), num_sfb) as usize
            &&& s.lpc_stop_band == nearest_band(offsets, line_of(16_000, total), num_sfb) as usize
            &&& num_sfb <= 80 ==> s.start_band + s.length(num_sfb) == num_sfb
            &&& num_sfb > 80 ==> s.length(num_sfb) == 63
        }),
{
}

} // verus!
