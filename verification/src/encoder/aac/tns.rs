//! Which lines temporal noise shaping filters, and the filter it sends.
//!
//! The analysis that finds the reflection coefficients is floating point. What
//! surrounds it is not: the range of bands the filter may touch, which both
//! ends of the chain have to agree on exactly, and the assembly of the
//! quantized coefficients into the filter that the bitstream carries.

use crate::decoder::aac::ics::{TnsFilterSpec, MAX_TNS_ORDER};
use crate::types::SamplingRate;
use vstd::prelude::*;

verus! {

/// Order the encoder searches up to.
pub const ORDER: usize = 12;

/// Lowest frequency the filter is allowed to touch, in hertz.
pub const START_FREQUENCY_HZ: u32 = 1500;

/// Lines of a window.
pub open spec fn lines_of(short: bool) -> int {
    if short {
        128
    } else {
        1024
    }
}

/// Whether a line is at or above the lowest frequency the filter may touch:
/// the lines of a window span half the sampling rate.
pub open spec fn is_above(line: int, hz: int, short: bool) -> bool {
    line * hz >= START_FREQUENCY_HZ * 2 * lines_of(short)
}

/// The first of the bands `b` to `stop` whose lower edge is high enough, or
/// `stop`.
pub open spec fn first_above(offsets: Seq<usize>, b: int, stop: int, hz: int, short: bool) -> int
    decreases stop - b,
{
    if b >= stop {
        stop
    } else if is_above(offsets[b] as int, hz, short) {
        b
    } else {
        first_above(offsets, b + 1, stop, hz, short)
    }
}

/// First band whose lower edge reaches [`START_FREQUENCY_HZ`].
pub fn first_band_above(
    offsets: &[usize],
    stop_band: usize,
    rate: SamplingRate,
    short: bool,
) -> (r: usize)
    requires
        stop_band <= offsets@.len(),
    ensures
        r == first_above(offsets@, 0, stop_band as int, rate.in_hz() as int, short),
        r <= stop_band,
{
    let hz: u128 = rate.hz() as u128;
    let least: u128 = if short {
        START_FREQUENCY_HZ as u128 * 2 * 128
    } else {
        START_FREQUENCY_HZ as u128 * 2 * 1024
    };
    let mut b: usize = 0;
    while b < stop_band
        invariant
            b <= stop_band <= offsets@.len(),
            hz == rate.in_hz(),
            least == START_FREQUENCY_HZ * 2 * lines_of(short),
            first_above(offsets@, 0, stop_band as int, rate.in_hz() as int, short) == first_above(
                offsets@,
                b as int,
                stop_band as int,
                rate.in_hz() as int,
                short,
            ),
        decreases stop_band - b,
    {
        let line: u128 = offsets[b] as u128;
        assert(0 <= line * hz <= 0xffff_ffff_ffff_ffff * 0xffff_ffff) by (nonlinear_arith)
            requires
                0 <= line <= 0xffff_ffff_ffff_ffff,
                0 <= hz <= 0xffff_ffff,
        ;
        if line * hz >= least {
            return b;
        }
        b += 1;
    }
    stop_band
}

/// The bands and lines that a filter covers.
#[derive(Debug, Clone, Copy, PartialEq, Eq, Structural)]
pub struct TnsRange {
    pub start_band: usize,
    pub stop_band: usize,
    /// First line.
    pub lo: usize,
    /// One past the last line.
    pub hi: usize,
}

pub open spec fn smaller(a: usize, b: usize) -> usize {
    if a <= b {
        a
    } else {
        b
    }
}

/// The range a filter covers, if there is room for one: from the first band
/// that is high enough to the last one that may be filtered and is coded, and
/// more lines than the filter has coefficients.
pub open spec fn range(
    offsets: Seq<usize>,
    bands: usize,
    max_band: usize,
    hz: int,
    short: bool,
    lines: usize,
) -> Option<TnsRange> {
    let stop = smaller(max_band, bands);
    let start = first_above(offsets, 0, stop as int, hz, short);
    let lo = offsets[start];
    let hi = smaller(offsets[stop as int], lines);
    if start >= stop || hi <= lo + ORDER {
        None
    } else {
        Some(TnsRange { start_band: start as usize, stop_band: stop, lo, hi })
    }
}

/// The range of a window's lines that a filter covers. `bands` is the number
/// of bands the channel codes, `max_band` the highest the tool may reach, and
/// `lines` the length of the spectrum.
pub fn filter_range(
    offsets: &[usize],
    bands: usize,
    max_band: usize,
    rate: SamplingRate,
    short: bool,
    lines: usize,
) -> (r: Option<TnsRange>)
    requires
        smaller(max_band, bands) < offsets@.len(),
        forall|b: int|
            0 <= b < offsets@.len() ==> #[trigger] offsets@[b] <= usize::MAX - ORDER,
    ensures
        r == range(offsets@, bands, max_band, rate.in_hz() as int, short, lines),
{
    let stop: usize = if max_band <= bands {
        max_band
    } else {
        bands
    };
    let start: usize = first_band_above(offsets, stop, rate, short);
    if start >= stop {
        return None;
    }
    let lo: usize = offsets[start];
    let end: usize = offsets[stop];
    let hi: usize = if end <= lines {
        end
    } else {
        lines
    };
    assert(offsets@[start as int] <= usize::MAX - ORDER);
    if hi <= lo + ORDER {
        return None;
    }
    Some(TnsRange { start_band: start, stop_band: stop, lo, hi })
}

/// One past the last index that is not zero.
pub open spec fn significant(indices: Seq<i8>) -> nat
    decreases indices.len(),
{
    if indices.len() == 0 {
        0
    } else if indices.last() != 0 {
        indices.len()
    } else {
        significant(indices.drop_last())
    }
}

/// The filter with the given quantized reflection coefficients, over the given
/// range: its order is the last coefficient that is not zero. None if all are
/// zero.
pub fn assemble(range: TnsRange, short: bool, indices: &[i8]) -> (r: Option<TnsFilterSpec>)
    requires
        indices@.len() <= MAX_TNS_ORDER,
    ensures
        r is None <==> significant(indices@) == 0,
        r matches Some(spec) ==> {
            &&& spec.start_band == range.start_band
            &&& spec.stop_band == range.stop_band
            &&& spec.order == significant(indices@)
            &&& !spec.downward
            &&& spec.resolution == if short {
                0u8
            } else {
                1
            }
            &&& forall|i: int|
                0 <= i < MAX_TNS_ORDER ==> #[trigger] spec.coef@[i] == if i < indices@.len() {
                    indices@[i]
                } else {
                    0
                }
        },
{
    let mut spec = TnsFilterSpec {
        start_band: range.start_band,
        stop_band: range.stop_band,
        order: 0,
        downward: false,
        coef: [0;20],
        resolution: if short {
            0
        } else {
            1
        },
    };
    let ghost begun = spec;
    let mut i: usize = 0;
    assert(indices@.take(0) =~= Seq::<i8>::empty());
    while i < indices.len()
        invariant
            i <= indices@.len() <= MAX_TNS_ORDER,
            spec.start_band == begun.start_band,
            spec.stop_band == begun.stop_band,
            spec.downward == begun.downward,
            spec.resolution == begun.resolution,
            spec.order == significant(indices@.take(i as int)),
            forall|k: int|
                0 <= k < MAX_TNS_ORDER ==> #[trigger] spec.coef@[k] == if k < i {
                    indices@[k]
                } else {
                    0
                },
        decreases indices@.len() - i,
    {
        proof {
            assert(indices@.take(i + 1).drop_last() =~= indices@.take(i as int));
        }
        spec.coef[i] = indices[i];
        if indices[i] != 0 {
            spec.order = i + 1;
        }
        i += 1;
    }
    assert(indices@.take(i as int) =~= indices@);
    if spec.order == 0 {
        None
    } else {
        Some(spec)
    }
}

proof fn lemma_first_above(offsets: Seq<usize>, b: int, stop: int, hz: int, short: bool)
    requires
        0 <= b <= stop,
    ensures
        ({
            let r = first_above(offsets, b, stop, hz, short);
            &&& b <= r <= stop
            &&& r < stop ==> is_above(offsets[r] as int, hz, short)
            &&& forall|k: int| b <= k < r ==> !is_above(#[trigger] offsets[k] as int, hz, short)
        }),
    decreases stop - b,
{
    if b < stop && !is_above(offsets[b] as int, hz, short) {
        lemma_first_above(offsets, b + 1, stop, hz, short);
    }
}

/// Where the lines of a filter lie: from the first band whose lowest line is
/// at 1500 Hz or above, up to the end of the last band that both the tool and
/// the channel reach and of the spectrum.
pub proof fn law_filtered_range(
    offsets: Seq<usize>,
    bands: usize,
    max_band: usize,
    hz: int,
    short: bool,
    lines: usize,
)
    requires
        bands < offsets.len(),
        max_band < offsets.len(),
        offsets.len() <= usize::MAX,
    ensures
        ({
            let width = if short { 128int } else { 1024 };
            match range(offsets, bands, max_band, hz, short, lines) {
                Some(r) => {
                    &&& r.start_band < r.stop_band
                    &&& r.stop_band <= bands && r.stop_band <= max_band
                    &&& r.stop_band == bands || r.stop_band == max_band
                    &&& r.lo == offsets[r.start_band as int]
                    &&& r.lo * hz >= 3000 * width
                    &&& forall|b: int|
                        0 <= b < r.start_band ==> (#[trigger] offsets[b]) * hz < 3000 * width
                    &&& r.hi <= offsets[r.stop_band as int] && r.hi <= lines
                    &&& r.hi == offsets[r.stop_band as int] || r.hi == lines
                    &&& r.hi - r.lo > 12
                },
                None => forall|b: int|
                    0 <= b < bands && b < max_band ==> (#[trigger] offsets[b]) * hz < 3000 * width
                        || (exists|a: int| 0 <= a < b && (#[trigger] offsets[a]) * hz >= 3000
                        * width) || (bands <= max_band && offsets[bands as int] <= offsets[b] + 12)
                        || (max_band <= bands && offsets[max_band as int] <= offsets[b] + 12)
                        || lines <= offsets[b] + 12,
            }
        }),
{
    let stop = smaller(max_band, bands);
    lemma_first_above(offsets, 0, stop as int, hz, short);
    let start = first_above(offsets, 0, stop as int, hz, short);
    let width = if short { 128int } else { 1024 };
    assert forall|k: int| 0 <= k < offsets.len() implies is_above(
        #[trigger] offsets[k] as int,
        hz,
        short,
    ) == (offsets[k] * hz >= 3000 * width) by {}
    if range(offsets, bands, max_band, hz, short, lines) is None {
        assert forall|b: int| 0 <= b < bands && b < max_band implies (#[trigger] offsets[b]) * hz
            < 3000 * width || (exists|a: int|
            0 <= a < b && (#[trigger] offsets[a]) * hz >= 3000 * width) || (bands <= max_band
            && offsets[bands as int] <= offsets[b] + 12) || (max_band <= bands
            && offsets[max_band as int] <= offsets[b] + 12) || lines <= offsets[b] + 12 by {
            if start < b {
                assert(offsets[start] * hz >= 3000 * width);
            }
        }
    }
}

/// The order of a filter ends at its last coefficient that is not zero.
pub proof fn law_order_of_a_filter(indices: Seq<i8>)
    ensures
        significant(indices) <= indices.len(),
        significant(indices) > 0 ==> indices[significant(indices) - 1] != 0,
        forall|i: int| significant(indices) <= i < indices.len() ==> #[trigger] indices[i] == 0,
    decreases indices.len(),
{
    if indices.len() > 0 && indices.last() == 0 {
        let before = indices.drop_last();
        law_order_of_a_filter(before);
        assert forall|i: int| significant(indices) <= i < indices.len() implies #[trigger] indices[i]
            == 0 by {
            if i < before.len() {
                assert(before[i] == 0);
            }
        }
    }
}

} // verus!
