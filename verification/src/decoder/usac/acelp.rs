//! ACELP: the bitstream side of the speech core of the Linear Prediction
//! Domain (LPD) mode.
//!
//! A superframe splits into 64-sample subframes, and each subframe is an
//! excitation run through a synthesis filter. Two of the excitation's
//! ingredients are pure integer decoding and live here:
//!
//! * The pitch lag is sent as an index over a piecewise grid
//!   ([`PitchRange`]): fine at short lags, coarser at long ones. The second
//!   subframe of each half sends only an offset into a window around the
//!   first one's lag ([`LagTracker`]).
//! * The innovation is a handful of unit pulses. Sixty-four positions are
//!   split into four interleaved tracks (position `p` of track `t` is sample
//!   `4p + t`) and the bit rate decides how many pulses each track gets.
//!   [`decode_pulses`] unpacks them.

use crate::bitstream::{BitReader, Cursor};
use crate::error::{Error, ErrorView, FormatError, FormatErrorView, Result};
use crate::tables::usac_acelp::{FSCALE_DENOM, LEN_SUBFR, TFR1, TFR2, TMAX, TMIN};
use crate::text;
use vstd::arithmetic::power2::*;
use vstd::prelude::*;

verus! {

/// Bits the algebraic codebook spends per subframe, by core mode.
pub const CODE_BITS_PER_MODE: [u16; 8] = [20, 28, 36, 44, 52, 64, 12, 16];

/// Width of each of the four algebraic codebook indices, by core mode. Mode 5
/// is the exception: it sends eight fields.
pub const CELP_INDEX_BITS: [[u8; 4]; 8] = [
    [5, 5, 5, 5],
    [9, 9, 5, 5],
    [9, 9, 9, 9],
    [13, 13, 9, 9],
    [13, 13, 13, 13],
    [16, 16, 16, 16],
    [1, 5, 1, 5],
    [1, 5, 5, 5],
];

/// The longest pitch lag that any core rate up to 24 kHz can ask for.
pub const MAX_PITCH: usize = 411;

/// Division that rounds towards zero.
pub open spec fn truncating(a: int, b: int) -> int {
    if a >= 0 {
        a / b
    } else {
        -((-a) / b)
    }
}

fn divide(a: i64, b: i64) -> (r: i64)
    requires
        b > 0,
        a > i64::MIN,
    ensures
        r == truncating(a as int, b as int),
        -(if a >= 0 { a as int } else { -a }) <= r <= (if a >= 0 { a as int } else { -a }),
{
    proof {
        vstd::arithmetic::div_mod::lemma_div_is_ordered_by_denominator(
            if a >= 0 {
                a as int
            } else {
                -a
            },
            1,
            b as int,
        );
        vstd::arithmetic::div_mod::lemma_div_pos_is_pos(
            if a >= 0 {
                a as int
            } else {
                -a
            },
            b as int,
        );
    }
    if a >= 0 {
        a / b
    } else {
        -((-a) / b)
    }
}

/// Whether a number fits in 32 bits.
pub open spec fn is_i32(x: int) -> bool {
    i32::MIN <= x <= i32::MAX
}

/// The pitch-lag grid, which moves with the core's sampling rate.
///
/// Lags are sent as a single index over a piecewise grid: quarter samples at
/// short lags, half samples in the middle, whole samples at long lags.
#[derive(Debug, Clone, Copy, PartialEq, Eq, Structural)]
pub struct PitchRange {
    pub min: i32,
    pub fr2: i32,
    pub fr1: i32,
    pub max: i32,
}

/// How far the grid of a core rate slides away from the unscaled one.
pub open spec fn grid_shift(fscale: int) -> int {
    truncating(fscale * TMIN + FSCALE_DENOM / 2, FSCALE_DENOM as int) - TMIN
}

impl PitchRange {
    /// The grid slid by `i`.
    pub open spec fn shifted(i: int) -> PitchRange {
        PitchRange {
            min: (TMIN + i) as i32,
            fr2: (TFR2 - i) as i32,
            fr1: TFR1,
            max: (TMAX + 6 * i) as i32,
        }
    }

    /// The lag, in whole samples and further quarters of a sample, that
    /// `index` stands for.
    pub open spec fn lag_at(self, index: int) -> (int, int) {
        let fine = (self.fr2 - self.min) * 4;
        let half = fine + (self.fr1 - self.fr2) * 2;
        if index < fine {
            let whole = truncating(index, 4);
            (self.min + whole, index - 4 * whole)
        } else if index < half {
            let whole = truncating(index - fine, 2);
            (self.fr2 + whole, 2 * (index - fine - 2 * whole))
        } else {
            (self.fr1 + index - half, 0)
        }
    }

    /// The grid for a core sampling rate of `fscale` hertz; 12800 is the
    /// unscaled case.
    pub fn new(fscale: i32) -> (r: Self)
        requires
            has_grid(fscale as int),
        ensures
            r == Self::shifted(grid_shift(fscale as int)),
            r.min == TMIN + grid_shift(fscale as int),
            r.fr2 == TFR2 - grid_shift(fscale as int),
            r.max == TMAX + 6 * grid_shift(fscale as int),
    {
        let scaled: i32 = fscale * TMIN + FSCALE_DENOM / 2;
        let i: i32 = divide(scaled as i64, FSCALE_DENOM as i64) as i32 - TMIN;
        PitchRange { min: TMIN + i, fr2: TFR2 - i, fr1: TFR1, max: TMAX + 6 * i }
    }

    /// Decodes an absolutely coded lag into whole samples and quarters.
    pub fn absolute(&self, index: i32) -> (r: (i32, i32))
        requires
            is_i32(self.lag_at(index as int).0),
        ensures
            (r.0 as int, r.1 as int) == self.lag_at(index as int),
    {
        let at: i64 = index as i64;
        let min: i64 = self.min as i64;
        let fr2: i64 = self.fr2 as i64;
        let fr1: i64 = self.fr1 as i64;
        let fine: i64 = (fr2 - min) * 4;
        let half: i64 = fine + (fr1 - fr2) * 2;
        if at < fine {
            let whole: i64 = divide(at, 4);
            ((min + whole) as i32, (at - whole * 4) as i32)
        } else if at < half {
            let whole: i64 = divide(at - fine, 2);
            ((fr2 + whole) as i32, ((at - fine - whole * 2) * 2) as i32)
        } else {
            ((fr1 + (at - half)) as i32, 0)
        }
    }
}

impl Default for PitchRange {
    fn default() -> (r: Self)
        ensures
            r == Self::shifted(0),
    {
        Self::new(FSCALE_DENOM)
    }
}

/// The core rates that have a grid.
pub open spec fn has_grid(fscale: int) -> bool {
    i32::MIN < fscale * TMIN && fscale * TMIN + FSCALE_DENOM / 2 <= i32::MAX
}

/// On every grid there is, a larger index names a longer lag and no lag is
/// shorter than the grid's shortest. As long as the grid is slid down by no
/// more than twelve samples, a nine-bit index always names a lag on the grid,
/// and the largest index the longest; on grids below that the largest index
/// overshoots.
pub proof fn law_pitch_grid(fscale: int, index: int)
    requires
        has_grid(fscale),
        0 <= index < 512,
    ensures
        ({
            let i = grid_shift(fscale);
            let grid = PitchRange::shifted(i);
            let (lag, frac) = grid.lag_at(index);
            &&& grid.min <= lag
            &&& 0 <= frac < 4
            &&& forall|later: int|
                index < later < 512 ==> 4 * lag + frac < 4 * (#[trigger] grid.lag_at(later)).0
                    + grid.lag_at(later).1
            &&& i >= -12 ==> lag <= grid.max
            &&& i >= -12 && index == 511 ==> lag == grid.max
            &&& i < -12 && index == 511 ==> lag > grid.max
        }),
{
    let grid = PitchRange::shifted(grid_shift(fscale));
    assert(-0x100_0000 <= grid_shift(fscale) <= 0x100_0000);
    assert forall|later: int| index < later < 512 implies 4 * grid.lag_at(index).0 + grid.lag_at(
        index,
    ).1 < 4 * (#[trigger] grid.lag_at(later)).0 + grid.lag_at(later).1 by {}
}

/// At no core rate up to 24 kHz does the grid reach past [`MAX_PITCH`].
pub proof fn law_longest_lag(fscale: int)
    requires
        0 <= fscale <= 24_000,
    ensures
        -34 <= grid_shift(fscale) <= 30,
        TMAX + 6 * grid_shift(fscale) <= MAX_PITCH,
{
}

/// The pitch grid, and the window that a differentially coded lag is relative
/// to.
#[derive(Debug, Clone, Copy, PartialEq, Eq, Structural)]
pub struct LagTracker {
    range: PitchRange,
    lag_min: i32,
}

impl LagTracker {
    /// The grid.
    pub closed spec fn range(self) -> PitchRange {
        self.range
    }

    /// The lower end of the window.
    pub closed spec fn window(self) -> int {
        self.lag_min as int
    }

    /// The lower end of the window around the lag `lag`: eight samples below
    /// it, moved so that all sixteen samples lie on the grid.
    pub open spec fn window_around(range: PitchRange, lag: int) -> int {
        let lo = if lag - 8 >= range.min {
            lag - 8
        } else {
            range.min as int
        };
        if lo + 15 > range.max {
            range.max - 15
        } else {
            lo
        }
    }

    /// A tracker for a core sampling rate of `fscale` hertz.
    pub fn new(fscale: i32) -> (r: Self)
        requires
            has_grid(fscale as int),
        ensures
            r.range() == PitchRange::shifted(grid_shift(fscale as int)),
            r.window() == 0,
    {
        LagTracker { range: PitchRange::new(fscale), lag_min: 0 }
    }

    /// Forgets the window, as at a seek.
    pub fn reset(&mut self)
        ensures
            final(self).range() == old(self).range(),
            final(self).window() == 0,
    {
        self.lag_min = 0;
    }

    /// Whether the lag that an index stands for, and the window that an
    /// absolute one sets, fit in 32 bits.
    pub open spec fn is_in_reach(self, acb_index: int, absolute_lag: bool) -> bool {
        let lag = self.range().lag_at(acb_index).0;
        if absolute_lag {
            is_i32(lag) && is_i32(Self::window_around(self.range(), lag))
        } else {
            is_i32(self.window() + truncating(acb_index, 4))
        }
    }

    /// The lag of one subframe, in whole samples and quarters. An absolutely
    /// coded one also moves the window.
    pub fn decode(&mut self, acb_index: i32, absolute_lag: bool) -> (r: (i32, i32))
        requires
            old(self).is_in_reach(acb_index as int, absolute_lag),
        ensures
            final(self).range() == old(self).range(),
            absolute_lag ==> {
                &&& (r.0 as int, r.1 as int) == old(self).range().lag_at(acb_index as int)
                &&& final(self).window() == Self::window_around(old(self).range(), r.0 as int)
            },
            !absolute_lag ==> {
                &&& r.0 == old(self).window() + truncating(acb_index as int, 4)
                &&& r.1 == acb_index - 4 * truncating(acb_index as int, 4)
                &&& final(self).window() == old(self).window()
            },
    {
        if absolute_lag {
            let (lag, frac) = self.range.absolute(acb_index);
            let min: i64 = self.range.min as i64;
            let max: i64 = self.range.max as i64;
            let mut lo: i64 = if lag as i64 - 8 >= min {
                lag as i64 - 8
            } else {
                min
            };
            if lo + 15 > max {
                lo = max - 15;
            }
            self.lag_min = lo as i32;
            (lag, frac)
        } else {
            let whole: i64 = divide(acb_index as i64, 4);
            ((self.lag_min as i64 + whole) as i32, (acb_index as i64 - whole * 4) as i32)
        }
    }
}

/// On every grid there is, the window that an absolute lag sets lies on the
/// grid and contains that lag, if the lag is on the grid and the grid is wide
/// enough for a window. A six-bit differential index reaches every quarter
/// sample of the window and nothing else.
pub proof fn law_lag_window(fscale: int, index: int, difference: int)
    requires
        has_grid(fscale),
        0 <= index < 512,
        0 <= difference < 64,
    ensures
        ({
            let grid = PitchRange::shifted(grid_shift(fscale));
            let lag = grid.lag_at(index).0;
            let lo = LagTracker::window_around(grid, lag);
            &&& lag <= grid.max && grid.max - grid.min >= 15 ==> grid.min <= lo <= lag <= lo + 15
                <= grid.max
            &&& grid_shift(fscale) >= -12 ==> lag <= grid.max && grid.max - grid.min >= 15
            &&& lo <= lo + truncating(difference, 4) <= lo + 15
            &&& 0 <= difference - 4 * truncating(difference, 4) < 4
        }),
{
    law_pitch_grid(fscale, index);
}

/// One past the lag where the fraction is nearest the next sample: where the
/// innovation is sharpened.
pub fn sharpening_lag(lag: i32, frac: i32) -> (r: usize)
    requires
        lag < i32::MAX,
    ensures
        r == ({
            let at = if frac > 2 {
                lag + 1
            } else {
                lag as int
            };
            if at < 0 {
                0
            } else {
                at
            }
        }),
{
    let at: i32 = if frac > 2 {
        lag + 1
    } else {
        lag
    };
    if at < 0 {
        0
    } else {
        at as usize
    }
}

/// The `width` bits of `idx` that start at bit `from`, bit 0 being the least
/// significant.
pub open spec fn part(idx: int, from: nat, width: nat) -> int {
    (idx / pow2(from) as int) % (pow2(width) as int)
}

/// The bits of a two's complement number are those of its unsigned reading.
proof fn lemma_part_unsigned(idx: int, from: nat, width: nat)
    requires
        from + width <= 32,
    ensures
        part(idx, from, width) == part(idx + 0x1_0000_0000, from, width),
{
    lemma2_to64();
    lemma_pow2_adds(from, (32 - from) as nat);
    lemma_pow2_adds(width, (32 - from - width) as nat);
    lemma_pow2_pos(from);
    lemma_pow2_pos(width);
    let f = pow2(from) as int;
    let w = pow2(width) as int;
    let rest = pow2((32 - from - width) as nat) as int;
    assert(pow2((32 - from) as nat) == w * rest);
    assert(idx + 0x1_0000_0000 == (w * rest) * f + idx) by (nonlinear_arith)
        requires
            0x1_0000_0000 == f * (w * rest),
    ;
    vstd::arithmetic::div_mod::lemma_hoist_over_denominator(idx, w * rest, f as nat);
    vstd::arithmetic::div_mod::lemma_mod_multiples_vanish(rest, idx / f, w);
    assert(idx / f + w * rest == w * rest + idx / f);
}

/// A part of at most eight bits is small.
broadcast proof fn lemma_part_small(idx: int, from: nat, width: nat)
    requires
        width <= 8,
    ensures
        0 <= #[trigger] part(idx, from, width) < pow2(width) <= 256,
{
    lemma2_to64();
    if width < 8 {
        lemma_pow2_strictly_increases(width, 8);
    }
    lemma_pow2_pos(width);
    vstd::arithmetic::div_mod::lemma_mod_bound(idx / pow2(from) as int, pow2(width) as int);
}

fn bits_of(idx: i32, from: u32, width: u32) -> (r: i32)
    requires
        from + width <= 31,
    ensures
        r == part(idx as int, from as nat, width as nat),
        0 <= r < pow2(width as nat),
{
    let raw: u32 = idx as u32;
    let shifted: u32 = raw >> from;
    let unit: u32 = 1u32 << width;
    proof {
        lemma2_to64();
        lemma_pow2_pos(width as nat);
        lemma_pow2_strictly_increases(width as nat, 32);
        vstd::bits::lemma_u32_shl_is_mul(1, width);
    }
    let mask: u32 = unit - 1;
    proof {
        assert(raw == idx || raw == idx + 0x1_0000_0000) by (bit_vector)
            requires
                raw == idx as u32,
        ;
        lemma_part_unsigned(idx as int, from as nat, width as nat);
        vstd::bits::lemma_u32_shr_is_div(raw, from);
        vstd::bits::lemma_u32_low_bits_mask_is_mod(shifted, width as nat);
        if width < 31 {
            lemma_pow2_strictly_increases(width as nat, 31);
        }
        assert(vstd::bits::low_bits_mask(width as nat) == mask) by {
            reveal(vstd::bits::low_bits_mask);
        }
        vstd::arithmetic::div_mod::lemma_mod_bound(shifted as int, pow2(width as nat) as int);
    }
    (shifted & mask) as i32
}

/// A unit pulse: the sample it lands on and whether it points up.
pub struct Pulse {
    pub at: int,
    pub up: bool,
}

/// What the pulses of `ps` that land on sample `k` add up to.
pub open spec fn amplitude(ps: Seq<Pulse>, k: int) -> int
    decreases ps.len(),
{
    if ps.len() == 0 {
        0
    } else {
        amplitude(ps.drop_last(), k) + if ps.last().at != k {
            0int
        } else if ps.last().up {
            1
        } else {
            -1
        }
    }
}

pub(crate) proof fn lemma_amplitude_concat(a: Seq<Pulse>, b: Seq<Pulse>, k: int)
    ensures
        amplitude(a + b, k) == amplitude(a, k) + amplitude(b, k),
    decreases b.len(),
{
    if b.len() == 0 {
        assert(a + b =~= a);
    } else {
        lemma_amplitude_concat(a, b.drop_last(), k);
        assert((a + b).drop_last() =~= a + b.drop_last());
    }
}

proof fn lemma_amplitude_bound(ps: Seq<Pulse>, k: int)
    ensures
        -ps.len() <= amplitude(ps, k) <= ps.len(),
    decreases ps.len(),
{
    if ps.len() > 0 {
        lemma_amplitude_bound(ps.drop_last(), k);
    }
}

/// Position `p` of track `t`.
pub open spec fn sample(p: int, track: int) -> int {
    4 * p + track
}

/// One pulse: `m` bits of position, then a sign bit.
pub open spec fn one(idx: int, m: nat, offset: int, track: int) -> Seq<Pulse> {
    seq![Pulse { at: sample(part(idx, 0, m) + offset, track), up: part(idx, m, 1) == 0 }]
}

/// Two pulses from a joint index: two positions of `m` bits and one sign bit,
/// that of the first pulse. The second pulse has the opposite sign exactly if
/// its position precedes that of the first.
pub open spec fn two(idx: int, m: nat, offset: int, track: int) -> Seq<Pulse> {
    let p0 = part(idx, m, m) + offset;
    let p1 = part(idx, 0, m) + offset;
    let up = part(idx, 2 * m, 1) == 0;
    seq![
        Pulse { at: sample(p0, track), up },
        Pulse {
            at: sample(p1, track),
            up: if p1 < p0 {
                !up
            } else {
                up
            },
        },
    ]
}

/// Three pulses: a pair in the half of the track that one bit chooses, and a
/// single one anywhere.
pub open spec fn three(idx: int, m: nat, offset: int, track: int) -> Seq<Pulse> {
    let half = if part(idx, (2 * m - 1) as nat, 1) == 1 {
        pow2((m - 1) as nat) as int
    } else {
        0
    };
    two(part(idx, 0, (2 * m - 1) as nat), (m - 1) as nat, offset + half, track) + one(
        part(idx, 2 * m, m + 1),
        m,
        offset,
        track,
    )
}

/// Four pulses within half a track: a pair in the quarter that one bit
/// chooses, and a pair anywhere in the half.
pub open spec fn four_in_half(idx: int, offset: int, track: int) -> Seq<Pulse> {
    let quarter = if part(idx, 5, 1) == 1 {
        4int
    } else {
        0
    };
    two(part(idx, 0, 5), 2, offset + quarter, track) + two(part(idx, 6, 7), 3, offset, track)
}

/// Four pulses on one track. Two bits select how they split across the
/// track's halves.
pub open spec fn four(idx: int, track: int) -> Seq<Pulse> {
    let split = part(idx, 14, 2);
    if split == 0 {
        four_in_half(
            idx,
            if part(idx, 13, 1) == 0 {
                0
            } else {
                8
            },
            track,
        )
    } else if split == 1 {
        one(part(idx, 10, 4), 3, 0, track) + three(idx, 3, 8, track)
    } else if split == 2 {
        two(part(idx, 7, 7), 3, 0, track) + two(idx, 3, 8, track)
    } else {
        three(part(idx, 4, 10), 3, 0, track) + one(idx, 3, 8, track)
    }
}

/// `n` pulses on a track, from an index with four-bit positions.
pub open spec fn group(n: int, idx: int, track: int) -> Seq<Pulse> {
    if n == 1 {
        one(idx, 4, 0, track)
    } else if n == 2 {
        two(idx, 4, 0, track)
    } else {
        three(idx, 4, 0, track)
    }
}

/// One group per track.
pub open spec fn groups(counts: (int, int, int, int), ix: Seq<i32>) -> Seq<Pulse> {
    group(counts.0, ix[0] as int, 0) + group(counts.1, ix[1] as int, 1) + group(
        counts.2,
        ix[2] as int,
        2,
    ) + group(counts.3, ix[3] as int, 3)
}

/// The pulses that the indices `ix` describe at a budget of `code_bits`.
pub open spec fn pulses(ix: Seq<i32>, code_bits: int) -> Seq<Pulse> {
    if code_bits == 12 {
        group(1, ix[1] as int, 2 * ix[0]) + group(1, ix[3] as int, 2 * ix[2] + 1)
    } else if code_bits == 16 {
        if ix[0] == 0 {
            group(1, ix[1] as int, 0) + group(1, ix[2] as int, 2) + group(1, ix[3] as int, 3)
        } else {
            group(1, ix[1] as int, 0) + group(1, ix[2] as int, 1) + group(1, ix[3] as int, 2)
        }
    } else if code_bits == 20 {
        groups((1, 1, 1, 1), ix)
    } else if code_bits == 28 {
        groups((2, 2, 1, 1), ix)
    } else if code_bits == 36 {
        groups((2, 2, 2, 2), ix)
    } else if code_bits == 44 {
        groups((3, 3, 2, 2), ix)
    } else if code_bits == 52 {
        groups((3, 3, 3, 3), ix)
    } else if code_bits == 64 {
        four(ix[0] * 0x4000 + ix[4], 0) + four(ix[1] * 0x4000 + ix[5], 1) + four(
            ix[2] * 0x4000 + ix[6],
            2,
        ) + four(ix[3] * 0x4000 + ix[7], 3)
    } else {
        Seq::empty()
    }
}

/// `code` with the pulses of `ps` added to it. Pulses outside the subframe
/// are dropped.
pub open spec fn struck(code: Seq<i32>, ps: Seq<Pulse>, after: Seq<i32>) -> bool {
    &&& after.len() == code.len()
    &&& forall|k: int| 0 <= k < code.len() ==> #[trigger] after[k] == code[k] + amplitude(ps, k)
}

/// Every sample is within `room` of zero.
pub open spec fn within(code: Seq<i32>, room: int) -> bool {
    forall|k: int| 0 <= k < code.len() ==> -room <= #[trigger] code[k] <= room
}

proof fn lemma_struck_twice(
    code: Seq<i32>,
    a: Seq<Pulse>,
    mid: Seq<i32>,
    b: Seq<Pulse>,
    after: Seq<i32>,
)
    requires
        struck(code, a, mid),
        struck(mid, b, after),
    ensures
        struck(code, a + b, after),
{
    assert forall|k: int| 0 <= k < code.len() implies #[trigger] after[k] == code[k] + amplitude(
        a + b,
        k,
    ) by {
        lemma_amplitude_concat(a, b, k);
        assert(mid[k] == code[k] + amplitude(a, k));
    }
}

proof fn lemma_struck_within(code: Seq<i32>, ps: Seq<Pulse>, after: Seq<i32>, room: int)
    requires
        struck(code, ps, after),
        within(code, room),
    ensures
        within(after, room + ps.len()),
{
    assert forall|k: int| 0 <= k < after.len() implies -(room + ps.len()) <= #[trigger] after[k]
        <= room + ps.len() by {
        lemma_amplitude_bound(ps, k);
        assert(-room <= code[k] <= room);
    }
}

/// How far the samples of a subframe may stray before pulses are placed.
pub const ROOM: i32 = 0x7fff_fffe;

/// Adds one pulse at position `p` of a track.
fn strike(p: i32, track: usize, up: bool, code: &mut [i32; 64])
    requires
        0 <= p,
        sample(p as int, track as int) <= usize::MAX,
        within(old(code)@, ROOM as int),
    ensures
        struck(old(code)@, seq![Pulse { at: sample(p as int, track as int), up }], final(code)@),
{
    let m: usize = (p as usize) * 4 + track;
    let ghost ps = seq![Pulse { at: sample(p as int, track as int), up }];
    proof {
        assert(ps.drop_last() =~= Seq::<Pulse>::empty());
        assert forall|k: int| #[trigger] amplitude(ps, k) == if k != m {
            0int
        } else if up {
            1
        } else {
            -1
        } by {
            assert(amplitude(ps.drop_last(), k) == 0);
        }
    }
    if m < 64 {
        assert(-ROOM <= code@[m as int] <= ROOM);
        code[m] = code[m] + if up {
            1
        } else {
            -1
        };
    }
}

/// Places one signed pulse on `track`: the low `m_bits` of `idx` are its
/// position and the next bit is its sign.
pub fn place_1(idx: i32, m_bits: u32, offset: i32, track: usize, code: &mut [i32; 64])
    requires
        m_bits <= 30,
        0 <= part(idx as int, 0, m_bits as nat) + offset <= i32::MAX,
        sample(part(idx as int, 0, m_bits as nat) + offset, track as int) <= usize::MAX,
        within(old(code)@, ROOM as int),
    ensures
        struck(
            old(code)@,
            one(idx as int, m_bits as nat, offset as int, track as int),
            final(code)@,
        ),
{
    let pos: i32 = bits_of(idx, 0, m_bits) + offset;
    let sign: i32 = bits_of(idx, m_bits, 1);
    strike(pos, track, sign == 0, code);
}

/// Places two pulses on one track from a joint index.
fn place_2(idx: i32, m_bits: u32, offset: i32, track: usize, code: &mut [i32; 64])
    requires
        m_bits <= 8,
        0 <= offset <= 256,
        track <= 0x4000_0000,
        within(old(code)@, ROOM - 1),
    ensures
        struck(
            old(code)@,
            two(idx as int, m_bits as nat, offset as int, track as int),
            final(code)@,
        ),
{
    proof {
        lemma2_to64();
        if m_bits < 8 {
            lemma_pow2_strictly_increases(m_bits as nat, 8);
        }
    }
    let p0: i32 = bits_of(idx, m_bits, m_bits) + offset;
    let p1: i32 = bits_of(idx, 0, m_bits) + offset;
    let up: bool = bits_of(idx, 2 * m_bits, 1) == 0;
    let second: bool = if p1 < p0 {
        !up
    } else {
        up
    };
    let ghost start = code@;
    let ghost a = seq![Pulse { at: sample(p0 as int, track as int), up }];
    let ghost b = seq![Pulse { at: sample(p1 as int, track as int), up: second }];
    strike(p0, track, up, code);
    let ghost mid = code@;
    proof {
        lemma_struck_within(start, a, mid, ROOM - 1);
    }
    strike(p1, track, second, code);
    proof {
        lemma_struck_twice(start, a, mid, b, code@);
        assert(a + b =~= two(idx as int, m_bits as nat, offset as int, track as int));
    }
}

/// Places three pulses: a pair in one half of the track and a single one.
fn place_3(idx: i32, m_bits: u32, offset: i32, track: usize, code: &mut [i32; 64])
    requires
        2 <= m_bits <= 4,
        0 <= offset <= 64,
        track <= 0x4000_0000,
        within(old(code)@, ROOM - 3),
    ensures
        struck(
            old(code)@,
            three(idx as int, m_bits as nat, offset as int, track as int),
            final(code)@,
        ),
{
    broadcast use lemma_part_small;

    let ghost start = code@;
    let half: i32 = if bits_of(idx, 2 * m_bits - 1, 1) == 1 {
        if m_bits == 2 {
            2
        } else if m_bits == 3 {
            4
        } else {
            8
        }
    } else {
        0
    };
    let pair: i32 = bits_of(idx, 0, 2 * m_bits - 1);
    let single: i32 = bits_of(idx, 2 * m_bits, m_bits + 1);
    proof {
        lemma2_to64();
    }
    place_2(pair, m_bits - 1, offset + half, track, code);
    let ghost mid = code@;
    let ghost a = two(pair as int, (m_bits - 1) as nat, offset + half, track as int);
    proof {
        lemma_struck_within(start, a, mid, ROOM - 3);
    }
    place_1(single, m_bits, offset, track, code);
    proof {
        lemma_struck_twice(
            start,
            a,
            mid,
            one(single as int, m_bits as nat, offset as int, track as int),
            code@,
        );
    }
}

/// Places four pulses within half a track.
fn place_4_section(idx: i32, offset: i32, track: usize, code: &mut [i32; 64])
    requires
        0 <= offset <= 64,
        track <= 0x4000_0000,
        within(old(code)@, ROOM - 4),
    ensures
        struck(old(code)@, four_in_half(idx as int, offset as int, track as int), final(code)@),
{
    let ghost start = code@;
    let quarter: i32 = if bits_of(idx, 5, 1) == 1 {
        4
    } else {
        0
    };
    let first: i32 = bits_of(idx, 0, 5);
    let second: i32 = bits_of(idx, 6, 7);
    place_2(first, 2, offset + quarter, track, code);
    let ghost mid = code@;
    let ghost a = two(first as int, 2, offset + quarter, track as int);
    proof {
        lemma_struck_within(start, a, mid, ROOM - 4);
    }
    place_2(second, 3, offset, track, code);
    proof {
        lemma_struck_twice(start, a, mid, two(second as int, 3, offset as int, track as int), code@);
    }
}

/// Places four pulses on one track.
fn place_4(idx: i32, track: usize, code: &mut [i32; 64])
    requires
        track <= 0x4000_0000,
        within(old(code)@, ROOM - 4),
    ensures
        struck(old(code)@, four(idx as int, track as int), final(code)@),
{
    broadcast use lemma_part_small;

    let ghost start = code@;
    let split: i32 = bits_of(idx, 14, 2);
    if split == 0 {
        let offset: i32 = if bits_of(idx, 13, 1) == 0 {
            0
        } else {
            8
        };
        place_4_section(idx, offset, track, code);
    } else if split == 1 {
        let single: i32 = bits_of(idx, 10, 4);
        place_1(single, 3, 0, track, code);
        let ghost mid = code@;
        let ghost a = one(single as int, 3, 0, track as int);
        proof {
            lemma_struck_within(start, a, mid, ROOM - 4);
        }
        place_3(idx, 3, 8, track, code);
        proof {
            lemma_struck_twice(start, a, mid, three(idx as int, 3, 8, track as int), code@);
        }
    } else if split == 2 {
        let pair: i32 = bits_of(idx, 7, 7);
        place_2(pair, 3, 0, track, code);
        let ghost mid = code@;
        let ghost a = two(pair as int, 3, 0, track as int);
        proof {
            lemma_struck_within(start, a, mid, ROOM - 4);
        }
        place_2(idx, 3, 8, track, code);
        proof {
            lemma_struck_twice(start, a, mid, two(idx as int, 3, 8, track as int), code@);
        }
    } else {
        let triple: i32 = bits_of(idx, 4, 10);
        place_3(triple, 3, 0, track, code);
        let ghost mid = code@;
        let ghost a = three(triple as int, 3, 0, track as int);
        proof {
            lemma_struck_within(start, a, mid, ROOM - 4);
        }
        place_1(idx, 3, 8, track, code);
        proof {
            lemma_struck_twice(start, a, mid, one(idx as int, 3, 8, track as int), code@);
        }
    }
}

/// Places `n` pulses on a track from an index with four-bit positions.
fn place_group(n: u8, idx: i32, track: usize, code: &mut [i32; 64])
    requires
        1 <= n <= 3,
        track <= 0x4000_0000,
        within(old(code)@, ROOM - 4),
    ensures
        struck(old(code)@, group(n as int, idx as int, track as int), final(code)@),
{
    broadcast use lemma_part_small;

    if n == 1 {
        place_1(idx, 4, 0, track, code);
    } else if n == 2 {
        place_2(idx, 4, 0, track, code);
    } else {
        place_3(idx, 4, 0, track, code);
    }
}

/// Places one group on each of the four tracks of an empty subframe.
fn place_groups(counts: [u8; 4], indices: &[i32; 8], code: &mut [i32; 64])
    requires
        forall|t: int| 0 <= t < 4 ==> 1 <= #[trigger] counts[t] <= 3,
        within(old(code)@, 0),
    ensures
        struck(
            old(code)@,
            groups(
                (counts[0] as int, counts[1] as int, counts[2] as int, counts[3] as int),
                indices@,
            ),
            final(code)@,
        ),
{
    let ghost s0 = code@;
    let ghost g0 = group(counts[0] as int, indices[0] as int, 0);
    let ghost g1 = group(counts[1] as int, indices[1] as int, 1);
    let ghost g2 = group(counts[2] as int, indices[2] as int, 2);
    let ghost g3 = group(counts[3] as int, indices[3] as int, 3);
    place_group(counts[0], indices[0], 0, code);
    let ghost s1 = code@;
    proof {
        lemma_struck_within(s0, g0, s1, 0);
    }
    place_group(counts[1], indices[1], 1, code);
    let ghost s2 = code@;
    proof {
        lemma_struck_twice(s0, g0, s1, g1, s2);
        lemma_struck_within(s0, g0 + g1, s2, 0);
    }
    place_group(counts[2], indices[2], 2, code);
    let ghost s3 = code@;
    proof {
        lemma_struck_twice(s0, g0 + g1, s2, g2, s3);
        lemma_struck_within(s0, g0 + g1 + g2, s3, 0);
    }
    place_group(counts[3], indices[3], 3, code);
    proof {
        lemma_struck_twice(s0, g0 + g1 + g2, s3, g3, code@);
    }
}

/// Whether the prefix and the body of a four-pulse track make up a joint index
/// of 32 bits.
pub open spec fn is_joinable(prefix: i32, body: i32) -> bool {
    &&& is_i32(prefix * 0x4000)
    &&& is_i32(prefix * 0x4000 + body)
}

/// The indices can be unpacked without leaving the machine's number range:
/// at 12 bits the track selectors are not negative, at 64 bits the joint
/// indices fit.
pub open spec fn placeable(ix: Seq<i32>, code_bits: int) -> bool {
    &&& code_bits == 12 ==> 0 <= ix[0] && 2 * ix[0] + 60 <= usize::MAX && 0 <= ix[2] && 2 * ix[2]
        + 61 <= usize::MAX
    &&& code_bits == 64 ==> is_joinable(ix[0], ix[4]) && is_joinable(ix[1], ix[5]) && is_joinable(
        ix[2],
        ix[6],
    ) && is_joinable(ix[3], ix[7])
}

/// Places four pulses on each of the four tracks of an empty subframe.
fn place_fours(indices: &[i32; 8], code: &mut [i32; 64])
    requires
        placeable(indices@, 64),
        within(old(code)@, 0),
    ensures
        struck(old(code)@, pulses(indices@, 64), final(code)@),
{
    let ghost s0 = code@;
    let ghost g0 = four(indices[0] * 0x4000 + indices[4], 0);
    let ghost g1 = four(indices[1] * 0x4000 + indices[5], 1);
    let ghost g2 = four(indices[2] * 0x4000 + indices[6], 2);
    let ghost g3 = four(indices[3] * 0x4000 + indices[7], 3);
    place_4(indices[0] * 0x4000 + indices[4], 0, code);
    let ghost s1 = code@;
    proof {
        lemma_struck_within(s0, g0, s1, 0);
    }
    place_4(indices[1] * 0x4000 + indices[5], 1, code);
    let ghost s2 = code@;
    proof {
        lemma_struck_twice(s0, g0, s1, g1, s2);
        lemma_struck_within(s0, g0 + g1, s2, 0);
    }
    place_4(indices[2] * 0x4000 + indices[6], 2, code);
    let ghost s3 = code@;
    proof {
        lemma_struck_twice(s0, g0 + g1, s2, g2, s3);
        lemma_struck_within(s0, g0 + g1 + g2, s3, 0);
    }
    place_4(indices[3] * 0x4000 + indices[7], 3, code);
    proof {
        lemma_struck_twice(s0, g0 + g1 + g2, s3, g3, code@);
    }
}

/// Reconstructs the innovation from its transmitted indices.
///
/// `code_bits` is the entry of [`CODE_BITS_PER_MODE`] for the frame's core
/// mode: 12 and 16 bits are the sparse low-rate cases, 20 through 52 spread
/// one to three pulses per track, and 64 gives every track four. Any other
/// budget gives silence.
pub fn decode_pulses(indices: &[i32; 8], code_bits: u16) -> (r: [i32; 64])
    requires
        placeable(indices@, code_bits as int),
    ensures
        forall|k: int|
            0 <= k < LEN_SUBFR ==> #[trigger] r[k] == amplitude(
                pulses(indices@, code_bits as int),
                k,
            ),
{
    broadcast use lemma_part_small;

    let mut code: [i32; 64] = [0;64];
    let ghost start = code@;
    proof {
        lemma2_to64();
    }
    if code_bits == 12 {
        let ghost a = group(1, indices[1] as int, 2 * indices[0]);
        place_1(indices[1], 4, 0, 2 * indices[0] as usize, &mut code);
        let ghost mid = code@;
        proof {
            lemma_struck_within(start, a, mid, 0);
        }
        place_1(indices[3], 4, 0, 2 * indices[2] as usize + 1, &mut code);
        proof {
            lemma_struck_twice(
                start,
                a,
                mid,
                group(1, indices[3] as int, 2 * indices[2] + 1),
                code@,
            );
        }
    } else if code_bits == 16 {
        let second: usize = if indices[0] == 0 {
            2
        } else {
            1
        };
        let third: usize = if indices[0] == 0 {
            3
        } else {
            2
        };
        let ghost a = group(1, indices[1] as int, 0);
        let ghost b = group(1, indices[2] as int, second as int);
        place_1(indices[1], 4, 0, 0, &mut code);
        let ghost s1 = code@;
        proof {
            lemma_struck_within(start, a, s1, 0);
        }
        place_1(indices[2], 4, 0, second, &mut code);
        let ghost s2 = code@;
        proof {
            lemma_struck_twice(start, a, s1, b, s2);
            lemma_struck_within(start, a + b, s2, 0);
        }
        place_1(indices[3], 4, 0, third, &mut code);
        proof {
            lemma_struck_twice(
                start,
                a + b,
                s2,
                group(1, indices[3] as int, third as int),
                code@,
            );
        }
    } else if code_bits == 20 {
        place_groups([1, 1, 1, 1], indices, &mut code);
    } else if code_bits == 28 {
        place_groups([2, 2, 1, 1], indices, &mut code);
    } else if code_bits == 36 {
        place_groups([2, 2, 2, 2], indices, &mut code);
    } else if code_bits == 44 {
        place_groups([3, 3, 2, 2], indices, &mut code);
    } else if code_bits == 52 {
        place_groups([3, 3, 3, 3], indices, &mut code);
    } else if code_bits == 64 {
        place_fours(indices, &mut code);
    }
    assert(struck(start, pulses(indices@, code_bits as int), code@));
    code
}

/// The pulses that a budget pays for.
pub open spec fn pulse_budget(code_bits: int) -> nat {
    if code_bits == 12 {
        2
    } else if code_bits == 16 {
        3
    } else if code_bits == 20 {
        4
    } else if code_bits == 28 {
        6
    } else if code_bits == 36 {
        8
    } else if code_bits == 44 {
        10
    } else if code_bits == 52 {
        12
    } else if code_bits == 64 {
        16
    } else {
        0
    }
}

/// Every pulse of `ps` is on `track` and inside the subframe.
pub open spec fn on_track(ps: Seq<Pulse>, track: int) -> bool {
    forall|j: int|
        0 <= j < ps.len() ==> 0 <= (#[trigger] ps[j]).at < LEN_SUBFR && ps[j].at % 4 == track
}

/// Every pulse of `ps` is inside the subframe.
pub open spec fn inside(ps: Seq<Pulse>) -> bool {
    forall|j: int| 0 <= j < ps.len() ==> 0 <= (#[trigger] ps[j]).at < LEN_SUBFR
}

proof fn lemma_part_bound(idx: int, from: nat, width: nat)
    ensures
        0 <= part(idx, from, width) < pow2(width),
{
    lemma_pow2_pos(width);
    vstd::arithmetic::div_mod::lemma_mod_bound(idx / pow2(from) as int, pow2(width) as int);
}

proof fn lemma_one_on_track(idx: int, m: nat, offset: int, track: int)
    requires
        0 <= offset,
        pow2(m) + offset <= 16,
        0 <= track < 4,
    ensures
        on_track(one(idx, m, offset, track), track),
{
    lemma_part_bound(idx, 0, m);
}

proof fn lemma_two_on_track(idx: int, m: nat, offset: int, track: int)
    requires
        0 <= offset,
        pow2(m) + offset <= 16,
        0 <= track < 4,
    ensures
        on_track(two(idx, m, offset, track), track),
{
    lemma_part_bound(idx, 0, m);
    lemma_part_bound(idx, m, m);
}

proof fn lemma_three_on_track(idx: int, m: nat, offset: int, track: int)
    requires
        0 <= offset,
        1 <= m,
        pow2(m) + offset <= 16,
        0 <= track < 4,
    ensures
        on_track(three(idx, m, offset, track), track),
{
    lemma_pow2_unfold(m);
    lemma_pow2_pos((m - 1) as nat);
    let half = if part(idx, (2 * m - 1) as nat, 1) == 1 {
        pow2((m - 1) as nat) as int
    } else {
        0
    };
    lemma_two_on_track(
        part(idx, 0, (2 * m - 1) as nat),
        (m - 1) as nat,
        offset + half,
        track,
    );
    lemma_one_on_track(part(idx, 2 * m, m + 1), m, offset, track);
}

pub(crate) proof fn lemma_four_on_track(idx: int, track: int)
    requires
        0 <= track < 4,
    ensures
        on_track(four(idx, track), track),
        four(idx, track).len() == 4,
{
    lemma2_to64();
    let split = part(idx, 14, 2);
    lemma_two_on_track(part(idx, 0, 5), 2, 0, track);
    lemma_two_on_track(part(idx, 0, 5), 2, 4, track);
    lemma_two_on_track(part(idx, 0, 5), 2, 8, track);
    lemma_two_on_track(part(idx, 0, 5), 2, 12, track);
    lemma_two_on_track(part(idx, 6, 7), 3, 0, track);
    lemma_two_on_track(part(idx, 6, 7), 3, 8, track);
    lemma_one_on_track(part(idx, 10, 4), 3, 0, track);
    lemma_three_on_track(idx, 3, 8, track);
    lemma_two_on_track(part(idx, 7, 7), 3, 0, track);
    lemma_two_on_track(idx, 3, 8, track);
    lemma_three_on_track(part(idx, 4, 10), 3, 0, track);
    lemma_one_on_track(idx, 3, 8, track);
}

pub(crate) proof fn lemma_group_on_track(n: int, idx: int, track: int)
    requires
        1 <= n <= 3,
        0 <= track < 4,
    ensures
        on_track(group(n, idx, track), track),
        group(n, idx, track).len() == n,
{
    lemma2_to64();
    lemma_one_on_track(idx, 4, 0, track);
    lemma_two_on_track(idx, 4, 0, track);
    lemma_three_on_track(idx, 4, 0, track);
}

proof fn lemma_groups_inside(counts: (int, int, int, int), ix: Seq<i32>)
    requires
        1 <= counts.0 <= 3,
        1 <= counts.1 <= 3,
        1 <= counts.2 <= 3,
        1 <= counts.3 <= 3,
    ensures
        inside(groups(counts, ix)),
        groups(counts, ix).len() == counts.0 + counts.1 + counts.2 + counts.3,
{
    lemma_group_on_track(counts.0, ix[0] as int, 0);
    lemma_group_on_track(counts.1, ix[1] as int, 1);
    lemma_group_on_track(counts.2, ix[2] as int, 2);
    lemma_group_on_track(counts.3, ix[3] as int, 3);
}

/// The sum of the magnitudes of the first `n` samples.
pub open spec fn strength(ps: Seq<Pulse>, n: nat) -> int
    decreases n,
{
    if n == 0 {
        0
    } else {
        strength(ps, (n - 1) as nat) + magnitude(amplitude(ps, n - 1))
    }
}

pub open spec fn magnitude(x: int) -> int {
    if x < 0 {
        -x
    } else {
        x
    }
}

/// One pulse more changes the strength by one, up or down.
proof fn lemma_strength_step(ps: Seq<Pulse>, n: nat)
    requires
        ps.len() > 0,
        ps.last().at >= 0,
    ensures
        ({
            let change = strength(ps, n) - strength(ps.drop_last(), n);
            if ps.last().at < n {
                change == 1 || change == -1
            } else {
                change == 0
            }
        }),
    decreases n,
{
    if n > 0 {
        lemma_strength_step(ps, (n - 1) as nat);
    }
}

/// Pulses that meet cancel in pairs, or add up.
proof fn lemma_strength(ps: Seq<Pulse>)
    requires
        inside(ps),
    ensures
        strength(ps, LEN_SUBFR as nat) <= ps.len(),
        strength(ps, LEN_SUBFR as nat) % 2 == ps.len() as int % 2,
    decreases ps.len(),
{
    if ps.len() > 0 {
        assert(ps.last() == ps[ps.len() - 1]);
        let rest = ps.drop_last();
        assert forall|j: int| 0 <= j < rest.len() implies 0 <= (#[trigger] rest[j]).at
            < LEN_SUBFR by {
            assert(rest[j] == ps[j]);
        }
        lemma_strength(rest);
        lemma_strength_step(ps, LEN_SUBFR as nat);
    } else {
        lemma_no_strength(ps, LEN_SUBFR as nat);
    }
}

proof fn lemma_no_strength(ps: Seq<Pulse>, n: nat)
    requires
        ps.len() == 0,
    ensures
        strength(ps, n) == 0,
    decreases n,
{
    if n > 0 {
        lemma_no_strength(ps, (n - 1) as nat);
    }
}

/// Every budget places exactly the pulses it pays for, each of them inside
/// the subframe, so that no sample of the innovation can exceed the budget.
/// The magnitudes of the innovation add up to as many pulses, less those that
/// cancel in pairs. At 12 bits the two track selectors have to be bits, as they
/// are on the wire.
pub proof fn law_pulse_budget(ix: Seq<i32>, code_bits: int, k: int)
    requires
        ix.len() == 8,
        code_bits == 12 ==> 0 <= ix[0] <= 1 && 0 <= ix[2] <= 1,
    ensures
        pulses(ix, code_bits).len() == pulse_budget(code_bits),
        inside(pulses(ix, code_bits)),
        -pulse_budget(code_bits) <= amplitude(pulses(ix, code_bits), k) <= pulse_budget(code_bits),
        strength(pulses(ix, code_bits), LEN_SUBFR as nat) <= pulse_budget(code_bits),
        strength(pulses(ix, code_bits), LEN_SUBFR as nat) % 2 == pulse_budget(code_bits) as int % 2,
{
    lemma_amplitude_bound(pulses(ix, code_bits), k);
    if code_bits == 12 {
        lemma_group_on_track(1, ix[1] as int, 2 * ix[0]);
        lemma_group_on_track(1, ix[3] as int, 2 * ix[2] + 1);
    } else if code_bits == 16 {
        lemma_group_on_track(1, ix[1] as int, 0);
        lemma_group_on_track(1, ix[2] as int, 1);
        lemma_group_on_track(1, ix[2] as int, 2);
        lemma_group_on_track(1, ix[3] as int, 2);
        lemma_group_on_track(1, ix[3] as int, 3);
    } else if code_bits == 20 {
        lemma_groups_inside((1, 1, 1, 1), ix);
    } else if code_bits == 28 {
        lemma_groups_inside((2, 2, 1, 1), ix);
    } else if code_bits == 36 {
        lemma_groups_inside((2, 2, 2, 2), ix);
    } else if code_bits == 44 {
        lemma_groups_inside((3, 3, 2, 2), ix);
    } else if code_bits == 52 {
        lemma_groups_inside((3, 3, 3, 3), ix);
    } else if code_bits == 64 {
        lemma_four_on_track(ix[0] * 0x4000 + ix[4], 0);
        lemma_four_on_track(ix[1] * 0x4000 + ix[5], 1);
        lemma_four_on_track(ix[2] * 0x4000 + ix[6], 2);
        lemma_four_on_track(ix[3] * 0x4000 + ix[7], 3);
    }
    lemma_strength(pulses(ix, code_bits));
}

/// The pulses of a track add up to nothing on another.
pub(crate) proof fn lemma_amplitude_on_track(ps: Seq<Pulse>, track: int, k: int)
    requires
        on_track(ps, track),
    ensures
        k % 4 != track ==> amplitude(ps, k) == 0,
        -ps.len() <= amplitude(ps, k) <= ps.len(),
    decreases ps.len(),
{
    if ps.len() > 0 {
        assert(ps.last() == ps[ps.len() - 1]);
        let rest = ps.drop_last();
        assert forall|j: int| 0 <= j < rest.len() implies 0 <= (#[trigger] rest[j]).at < LEN_SUBFR
            && rest[j].at % 4 == track by {
            assert(rest[j] == ps[j]);
        }
        lemma_amplitude_on_track(rest, track, k);
    }
}

proof fn lemma_four_tracks(a: Seq<Pulse>, b: Seq<Pulse>, c: Seq<Pulse>, d: Seq<Pulse>, k: int)
    requires
        on_track(a, 0),
        on_track(b, 1),
        on_track(c, 2),
        on_track(d, 3),
        a.len() <= 4,
        b.len() <= 4,
        c.len() <= 4,
        d.len() <= 4,
    ensures
        -4 <= amplitude(a + b + c + d, k) <= 4,
{
    lemma_amplitude_on_track(a, 0, k);
    lemma_amplitude_on_track(b, 1, k);
    lemma_amplitude_on_track(c, 2, k);
    lemma_amplitude_on_track(d, 3, k);
    lemma_amplitude_concat(a, b, k);
    lemma_amplitude_concat(a + b, c, k);
    lemma_amplitude_concat(a + b + c, d, k);
}

proof fn lemma_groups_stay_small(counts: (int, int, int, int), ix: Seq<i32>, k: int)
    requires
        1 <= counts.0 <= 3,
        1 <= counts.1 <= 3,
        1 <= counts.2 <= 3,
        1 <= counts.3 <= 3,
    ensures
        -4 <= amplitude(groups(counts, ix), k) <= 4,
{
    lemma_group_on_track(counts.0, ix[0] as int, 0);
    lemma_group_on_track(counts.1, ix[1] as int, 1);
    lemma_group_on_track(counts.2, ix[2] as int, 2);
    lemma_group_on_track(counts.3, ix[3] as int, 3);
    lemma_four_tracks(
        group(counts.0, ix[0] as int, 0),
        group(counts.1, ix[1] as int, 1),
        group(counts.2, ix[2] as int, 2),
        group(counts.3, ix[3] as int, 3),
        k,
    );
}

/// No sample of the innovation exceeds four: a track has at most that many
/// pulses, and no two tracks share a sample.
pub proof fn law_pulses_stay_small(ix: Seq<i32>, code_bits: int, k: int)
    requires
        ix.len() == 8,
        code_bits == 12 ==> 0 <= ix[0] <= 1 && 0 <= ix[2] <= 1,
    ensures
        -4 <= amplitude(pulses(ix, code_bits), k) <= 4,
{
    if code_bits == 20 {
        lemma_groups_stay_small((1, 1, 1, 1), ix, k);
    } else if code_bits == 28 {
        lemma_groups_stay_small((2, 2, 1, 1), ix, k);
    } else if code_bits == 36 {
        lemma_groups_stay_small((2, 2, 2, 2), ix, k);
    } else if code_bits == 44 {
        lemma_groups_stay_small((3, 3, 2, 2), ix, k);
    } else if code_bits == 52 {
        lemma_groups_stay_small((3, 3, 3, 3), ix, k);
    } else if code_bits == 64 {
        lemma_four_on_track(ix[0] * 0x4000 + ix[4], 0);
        lemma_four_on_track(ix[1] * 0x4000 + ix[5], 1);
        lemma_four_on_track(ix[2] * 0x4000 + ix[6], 2);
        lemma_four_on_track(ix[3] * 0x4000 + ix[7], 3);
        lemma_four_tracks(
            four(ix[0] * 0x4000 + ix[4], 0),
            four(ix[1] * 0x4000 + ix[5], 1),
            four(ix[2] * 0x4000 + ix[6], 2),
            four(ix[3] * 0x4000 + ix[7], 3),
            k,
        );
    } else {
        law_pulse_budget(ix, code_bits, k);
    }
}

/// One subframe's transmitted parameters.
#[derive(Debug, Clone, Copy)]
pub struct SubframeParams {
    /// Pitch lag index, absolutely coded in the first subframe of each half
    /// frame and differentially elsewhere.
    pub acb_index: i32,
    /// When clear, the adaptive codebook excitation is low-pass filtered.
    pub ltp_filtering: bool,
    /// Algebraic codebook indices; how many are meaningful depends on the
    /// mode.
    pub icb_index: [i32; 8],
    /// Index into the joint table of pitch gain and innovation gain.
    pub gain_index: usize,
}

/// [`SubframeParams`] as numbers.
#[verifier::ext_equal]
pub struct SubframeView {
    pub acb_index: int,
    pub ltp_filtering: bool,
    pub icb_index: Seq<i32>,
    pub gain_index: int,
}

impl View for SubframeParams {
    type V = SubframeView;

    open spec fn view(&self) -> SubframeView {
        SubframeView {
            acb_index: self.acb_index as int,
            ltp_filtering: self.ltp_filtering,
            icb_index: self.icb_index@,
            gain_index: self.gain_index as int,
        }
    }
}

impl Default for SubframeParams {
    fn default() -> (r: Self)
        ensures
            r@ == (SubframeView {
                acb_index: 0,
                ltp_filtering: false,
                icb_index: seq![0i32, 0, 0, 0, 0, 0, 0, 0],
                gain_index: 0,
            }),
    {
        let r = SubframeParams {
            acb_index: 0,
            ltp_filtering: false,
            icb_index: [0;8],
            gain_index: 0,
        };
        assert(r.icb_index@ =~= seq![0i32, 0, 0, 0, 0, 0, 0, 0]);
        r
    }
}

/// The width of the `i`th algebraic codebook index of a mode; an index that
/// the mode does not send has no bits.
pub open spec fn index_width(core_mode: int, i: int) -> nat {
    if core_mode == 5 {
        if i < 4 {
            2
        } else {
            14
        }
    } else if i < 4 {
        CELP_INDEX_BITS[core_mode][i] as nat
    } else {
        0
    }
}

/// The first `n` algebraic codebook indices of a mode, the rest being zero.
pub open spec fn decode_indices(c: Cursor, core_mode: int, n: nat) -> (Seq<i32>, Cursor)
    decreases n,
{
    if n == 0 {
        (seq![0i32, 0, 0, 0, 0, 0, 0, 0], c)
    } else {
        let (ix, c) = decode_indices(c, core_mode, (n - 1) as nat);
        if index_width(core_mode, n - 1) == 0 {
            (ix, c)
        } else {
            let (v, c) = c.read(index_width(core_mode, n - 1));
            (ix.update(n - 1, v as i32), c)
        }
    }
}

/// The width of the first `n` algebraic codebook indices of a mode.
pub open spec fn indices_width(core_mode: int, n: nat) -> nat
    decreases n,
{
    if n == 0 {
        0
    } else {
        indices_width(core_mode, (n - 1) as nat) + index_width(core_mode, n - 1)
    }
}

/// Once reading the indices has failed, the later ones change nothing.
proof fn lemma_indices_faulted(c: Cursor, core_mode: int, n: nat, more: nat)
    requires
        n <= more,
        decode_indices(c, core_mode, n).1.fault is Some,
    ensures
        decode_indices(c, core_mode, more).1 == decode_indices(c, core_mode, n).1,
    decreases more,
{
    broadcast use crate::bitstream::group_faulted;

    if n < more {
        lemma_indices_faulted(c, core_mode, n, (more - 1) as nat);
    }
}

broadcast proof fn lemma_indices_after_fault(c: Cursor, core_mode: int, n: nat)
    ensures
        c.fault is Some ==> (#[trigger] decode_indices(c, core_mode, n)).1 == c,
{
    if c.fault is Some {
        lemma_indices_faulted(c, core_mode, 0, n);
    }
}

impl SubframeParams {
    /// The subframe that a bit string starts with.
    pub open spec fn decode(c: Cursor, core_mode: int, absolute_lag: bool) -> (
        SubframeView,
        Cursor,
    ) {
        let (acb_index, c) = c.read(
            if absolute_lag {
                9
            } else {
                6
            },
        );
        let (ltp_filtering, c) = c.flag();
        let (icb_index, c) = decode_indices(c, core_mode, 8);
        let (gain_index, c) = c.read(7);
        (
            SubframeView {
                acb_index: acb_index as int,
                ltp_filtering,
                icb_index,
                gain_index: gain_index as int,
            },
            c,
        )
    }

    /// The number of bits a subframe takes.
    pub open spec fn width(core_mode: int, absolute_lag: bool) -> nat {
        (if absolute_lag {
            9nat
        } else {
            6
        }) + 1 + indices_width(core_mode, 8) + 7
    }

    fn index_bits(core_mode: usize, i: usize) -> (r: usize)
        requires
            core_mode < 8,
            i < 8,
        ensures
            r == index_width(core_mode as int, i as int),
            r <= 16,
    {
        if core_mode == 5 {
            if i < 4 {
                2
            } else {
                14
            }
        } else if i < 4 {
            let row: [u8; 4] = CELP_INDEX_BITS[core_mode];
            row[i] as usize
        } else {
            0
        }
    }

    fn parse_indices(reader: &mut BitReader, core_mode: usize) -> (r: Result<[i32; 8]>)
        requires
            core_mode < 8,
        ensures
            ({
                let (v, c) = decode_indices(old(reader).cursor(), core_mode as int, 8);
                &&& final(reader)@ == c.bits
                &&& final(reader).consumed() == old(reader).position_before(c.bits)
                &&& match r {
                    Ok(x) => c.fault is None && x@ == v && final(reader).consumed() == old(
                        reader,
                    ).consumed() + indices_width(core_mode as int, 8),
                    Err(e) => c.fault == Some(e@),
                }
            }),
    {
        let ghost start = reader.cursor();
        let ghost before = reader.consumed();
        let mut out: [i32; 8] = [0;8];
        assert(out@ =~= seq![0i32, 0, 0, 0, 0, 0, 0, 0]);
        let mut i: usize = 0;
        while i < 8
            invariant
                i <= 8,
                core_mode < 8,
                start == old(reader).cursor(),
                before == old(reader).consumed(),
                decode_indices(start, core_mode as int, i as nat) == (out@, reader.cursor()),
                reader.consumed() == old(reader).position_before(reader@),
                reader.consumed() == before + indices_width(core_mode as int, i as nat),
            decreases 8 - i,
        {
            let n: usize = Self::index_bits(core_mode, i);
            if n > 0 {
                match reader.read_u32(n) {
                    Ok(v) => {
                        proof {
                            lemma2_to64();
                            if n < 16 {
                                lemma_pow2_strictly_increases(n as nat, 16);
                            }
                        }
                        out[i] = v as i32;
                    },
                    Err(e) => {
                        proof {
                            lemma_indices_faulted(start, core_mode as int, (i + 1) as nat, 8);
                        }
                        return Err(e);
                    },
                }
            }
            i += 1;
        }
        Ok(out)
    }

    /// Reads one subframe.
    pub fn parse(reader: &mut BitReader, core_mode: usize, absolute_lag: bool) -> (r: Result<Self>)
        requires
            core_mode < 8,
        ensures
            ({
                let (v, c) = Self::decode(old(reader).cursor(), core_mode as int, absolute_lag);
                &&& final(reader)@ == c.bits
                &&& final(reader).consumed() == old(reader).position_before(c.bits)
                &&& match r {
                    Ok(x) => c.fault is None && x@ == v && final(reader).consumed() == old(
                        reader,
                    ).consumed() + Self::width(core_mode as int, absolute_lag),
                    Err(e) => c.fault == Some(e@),
                }
            }),
    {
        broadcast use {crate::bitstream::group_faulted, lemma_indices_after_fault};

        let acb_index: u32 = reader.read_u32(
            if absolute_lag {
                9
            } else {
                6
            },
        )?;
        let ltp_filtering: bool = reader.read_bit()?;
        let icb_index: [i32; 8] = Self::parse_indices(reader, core_mode)?;
        let gain_index: u32 = reader.read_u32(7)?;
        proof {
            lemma2_to64();
        }
        Ok(
            SubframeParams {
                acb_index: acb_index as i32,
                ltp_filtering,
                icb_index,
                gain_index: gain_index as usize,
            },
        )
    }
}

/// One ACELP frame's parameters: a coarse energy for the whole frame, then
/// the detail of each subframe.
#[derive(Debug, Clone)]
pub struct AcelpFrame {
    /// 2-bit quantized mean excitation energy of the frame.
    pub mean_energy: i32,
    pub subframes: Vec<SubframeParams>,
}

impl Default for AcelpFrame {
    fn default() -> (r: Self)
        ensures
            r.mean_energy == 0,
            r.subframes@.len() == 0,
    {
        AcelpFrame { mean_energy: 0, subframes: Vec::new() }
    }
}

/// [`AcelpFrame`] as numbers.
#[verifier::ext_equal]
pub struct AcelpFrameView {
    pub mean_energy: int,
    pub subframes: Seq<SubframeView>,
}

impl View for AcelpFrame {
    type V = AcelpFrameView;

    open spec fn view(&self) -> AcelpFrameView {
        AcelpFrameView {
            mean_energy: self.mean_energy as int,
            subframes: self.subframes@.map_values(|s: SubframeParams| s@),
        }
    }
}

/// Whether subframe `sfr` of `num_subfr` sends its lag absolutely: the first
/// one does, and in a frame of four the one that starts the second half.
pub open spec fn is_absolute(num_subfr: int, sfr: int) -> bool {
    sfr == 0 || (num_subfr == 4 && sfr == 2)
}

pub open spec fn invalid_usac(message: Seq<char>) -> ErrorView {
    ErrorView::Format(FormatErrorView::InvalidUsacContainer(message))
}

impl AcelpFrame {
    /// The first `n` of `num_subfr` subframes.
    pub open spec fn decode_subframes(c: Cursor, core_mode: int, num_subfr: int, n: nat) -> (
        Seq<SubframeView>,
        Cursor,
    )
        decreases n,
    {
        if n == 0 {
            (Seq::empty(), c)
        } else {
            let (done, c) = Self::decode_subframes(c, core_mode, num_subfr, (n - 1) as nat);
            let (next, c) = SubframeParams::decode(c, core_mode, is_absolute(num_subfr, n - 1));
            (done.push(next), c)
        }
    }

    /// The frame of `num_subfr` subframes that a bit string starts with.
    pub open spec fn decode(c: Cursor, core_mode: int, num_subfr: nat) -> (AcelpFrameView, Cursor) {
        let c = c.fail_if(
            core_mode >= 8,
            invalid_usac(
                "acelp_core_mode "@ + text::decimal_text(core_mode as nat)
                    + " is out of range 0..8"@,
            ),
        );
        let (mean_energy, c) = c.read(2);
        let (subframes, c) = Self::decode_subframes(c, core_mode, num_subfr as int, num_subfr);
        (AcelpFrameView { mean_energy: mean_energy as int, subframes }, c)
    }

    /// The number of bits that the first `n` of `num_subfr` subframes take.
    pub open spec fn subframes_width(core_mode: int, num_subfr: int, n: nat) -> nat
        decreases n,
    {
        if n == 0 {
            0
        } else {
            Self::subframes_width(core_mode, num_subfr, (n - 1) as nat) + SubframeParams::width(
                core_mode,
                is_absolute(num_subfr, n - 1),
            )
        }
    }

    /// The number of bits that a frame of `num_subfr` subframes takes.
    pub open spec fn width(core_mode: int, num_subfr: nat) -> nat {
        2 + Self::subframes_width(core_mode, num_subfr as int, num_subfr)
    }

    proof fn lemma_subframes_faulted(
        c: Cursor,
        core_mode: int,
        num_subfr: int,
        n: nat,
        more: nat,
    )
        requires
            n <= more,
            Self::decode_subframes(c, core_mode, num_subfr, n).1.fault is Some,
        ensures
            Self::decode_subframes(c, core_mode, num_subfr, more).1 == Self::decode_subframes(
                c,
                core_mode,
                num_subfr,
                n,
            ).1,
        decreases more,
    {
        broadcast use {crate::bitstream::group_faulted, lemma_indices_after_fault};

        if n < more {
            Self::lemma_subframes_faulted(c, core_mode, num_subfr, n, (more - 1) as nat);
        }
    }

    /// Whether the frame can be synthesized with `lpc_sets` filters into
    /// `out_len` samples: one filter and one subframe of room per subframe.
    pub fn check_buffers(&self, lpc_sets: usize, out_len: usize) -> (r: Result<()>)
        ensures
            match r {
                Ok(()) => lpc_sets >= self.subframes@.len() && out_len >= self.subframes@.len()
                    * LEN_SUBFR,
                Err(e) => (lpc_sets < self.subframes@.len() || out_len < self.subframes@.len()
                    * LEN_SUBFR) && e@ == invalid_usac(
                    "ACELP output or LPC set too short for the frame's subframes"@,
                ),
            },
    {
        let n: usize = self.subframes.len();
        if lpc_sets < n || out_len / LEN_SUBFR < n {
            let mut message: String = String::new();
            message.append("ACELP output or LPC set too short for the frame's subframes");
            assert(message@ =~= "ACELP output or LPC set too short for the frame's subframes"@);
            return Err(Error::Format(FormatError::InvalidUsacContainer(message)));
        }
        Ok(())
    }

    /// Reads one ACELP frame. `num_subfr` is 4 for a 256-sample frame and 2
    /// for a 128-sample one.
    pub fn parse(reader: &mut BitReader, core_mode: usize, num_subfr: usize) -> (r: Result<Self>)
        ensures
            ({
                let (v, c) = Self::decode(
                    old(reader).cursor(),
                    core_mode as int,
                    num_subfr as nat,
                );
                &&& final(reader)@ == c.bits
                &&& final(reader).consumed() == old(reader).position_before(c.bits)
                &&& match r {
                    Ok(x) => c.fault is None && x@ == v && final(reader).consumed() == old(
                        reader,
                    ).consumed() + Self::width(core_mode as int, num_subfr as nat),
                    Err(e) => c.fault == Some(e@),
                }
            }),
    {
        broadcast use crate::bitstream::group_faulted;

        let ghost whole = reader.cursor();
        let ghost before = reader.consumed();
        if core_mode >= 8 {
            let mut message: String = text::with_number("acelp_core_mode ", core_mode as u64);
            message.append(" is out of range 0..8");
            proof {
                let c = whole.fail_if(true, invalid_usac(message@));
                assert(c.read(2).1 == c);
                Self::lemma_subframes_faulted(
                    c,
                    core_mode as int,
                    num_subfr as int,
                    0,
                    num_subfr as nat,
                );
            }
            return Err(Error::Format(FormatError::InvalidUsacContainer(message)));
        }
        let mean_energy: u32 = match reader.read_u32(2) {
            Ok(v) => v,
            Err(e) => {
                proof {
                    Self::lemma_subframes_faulted(
                        whole.read(2).1,
                        core_mode as int,
                        num_subfr as int,
                        0,
                        num_subfr as nat,
                    );
                }
                return Err(e);
            },
        };
        proof {
            lemma2_to64();
        }
        let ghost start = reader.cursor();
        let mut subframes: Vec<SubframeParams> = Vec::new();
        let mut sfr: usize = 0;
        assert(subframes@.map_values(|s: SubframeParams| s@) =~= Seq::<SubframeView>::empty());
        while sfr < num_subfr
            invariant
                sfr <= num_subfr,
                core_mode < 8,
                whole == old(reader).cursor(),
                before == old(reader).consumed(),
                mean_energy < 4,
                whole.read(2) == (mean_energy as nat, start),
                Self::decode_subframes(start, core_mode as int, num_subfr as int, sfr as nat) == (
                    subframes@.map_values(|s: SubframeParams| s@),
                    reader.cursor(),
                ),
                reader.consumed() == before + 2 + Self::subframes_width(
                    core_mode as int,
                    num_subfr as int,
                    sfr as nat,
                ),
                reader.consumed() == old(reader).position_before(reader@),
            decreases num_subfr - sfr,
        {
            let absolute: bool = sfr == 0 || (num_subfr == 4 && sfr == 2);
            match SubframeParams::parse(reader, core_mode, absolute) {
                Ok(next) => {
                    let ghost done = subframes@;
                    subframes.push(next);
                    proof {
                        let f = |s: SubframeParams| s@;
                        assert(subframes@.map_values(f) =~= done.map_values(f).push(next@));
                    }
                },
                Err(e) => {
                    proof {
                        Self::lemma_subframes_faulted(
                            start,
                            core_mode as int,
                            num_subfr as int,
                            (sfr + 1) as nat,
                            num_subfr as nat,
                        );
                    }
                    return Err(e);
                },
            }
            sfr += 1;
        }
        Ok(AcelpFrame { mean_energy: mean_energy as i32, subframes })
    }
}

/// After a fault nothing of a frame is read any more.
pub broadcast proof fn lemma_frame_after_fault(c: Cursor, core_mode: int, num_subfr: nat)
    ensures
        c.fault is Some ==> (#[trigger] AcelpFrame::decode(c, core_mode, num_subfr)).1 == c,
{
    broadcast use crate::bitstream::group_faulted;

    if c.fault is Some {
        AcelpFrame::lemma_subframes_faulted(c, core_mode, num_subfr as int, 0, num_subfr);
    }
}

} // verus!
