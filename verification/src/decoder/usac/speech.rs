//! What the fields of a speech frame are and mean.

use crate::bitstream::Cursor;
use crate::decoder::usac::acelp;
use crate::decoder::usac::acelp::{AcelpFrame, LagTracker, PitchRange, SubframeParams};
use crate::decoder::usac::acelp::{CELP_INDEX_BITS, CODE_BITS_PER_MODE};
use crate::decoder::usac::{LpdFrame, LpdModeSet, LpdSubframeMode};
use crate::layouts;
use vstd::arithmetic::power2::*;
use vstd::prelude::*;

verus! {

/// The lag of an index in quarters of a sample.
pub open spec fn quarters(grid: PitchRange, index: int) -> int {
    4 * grid.lag_at(index).0 + grid.lag_at(index).1
}

/// The grid starts at the shortest lag and goes up in quarters of a sample, in
/// halves from the second edge on, and in whole samples from the first edge
/// on.
pub proof fn law_pitch_steps(grid: PitchRange, index: int)
    requires
        grid.min <= grid.fr2 <= grid.fr1,
        index >= 0,
    ensures
        quarters(grid, 0) == 4 * if grid.min < grid.fr2 {
            grid.min
        } else if grid.fr2 < grid.fr1 {
            grid.fr2
        } else {
            grid.fr1
        },
        grid.lag_at(index).0 < grid.fr2 ==> quarters(grid, index + 1) == quarters(grid, index) + 1,
        grid.fr2 <= grid.lag_at(index).0 < grid.fr1 ==> quarters(grid, index + 1) == quarters(
            grid,
            index,
        ) + 2,
        grid.lag_at(index).0 >= grid.fr1 ==> quarters(grid, index + 1) == quarters(grid, index) + 4,
        0 <= grid.lag_at(index).1 < 4,
{
}

/// The grid of a core rate starts at the lag nearest to what 34 samples at
/// 12800 Hz last at that rate. The finer part of the grid is as much shorter as
/// it starts higher, and the grid ends six samples later for each.
pub proof fn law_grid_of_a_rate(fscale: int)
    requires
        0 <= fscale <= 1_000_000,
    ensures
        ({
            let grid = PitchRange::shifted(acelp::grid_shift(fscale));
            &&& -6400 <= 12_800 * grid.min - 34 * fscale <= 6400
            &&& grid.min + grid.fr2 == 34 + 128
            &&& grid.fr1 == 160
            &&& grid.max - 231 == 6 * (grid.min - 34)
        }),
{
}

/// The window for the next lag starts eight samples below this one, wherever
/// sixteen samples fit there; at either end of the grid it is moved inside.
pub proof fn law_window_around_a_lag(grid: PitchRange, lag: int)
    requires
        grid.max - grid.min >= 15,
        grid.min <= lag <= grid.max,
    ensures
        ({
            let lo = LagTracker::window_around(grid, lag);
            &&& lag >= grid.min + 8 && lag <= grid.max - 7 ==> lo == lag - 8
            &&& lag < grid.min + 8 ==> lo == grid.min || lo == grid.max - 15
            &&& lag > grid.max - 7 ==> lo == grid.max - 15
            &&& grid.min <= lo <= lag <= lo + 15 <= grid.max
        }),
{
}

/// The mode of a subframe that has one bit.
pub open spec fn short_mode(bit: int) -> LpdSubframeMode {
    if bit == 0 {
        LpdSubframeMode::Acelp
    } else {
        LpdSubframeMode::Tcx20
    }
}

/// Below sixteen each subframe has a bit, the first one the lowest. The fields
/// from there on have a transform over one half, with a bit for each subframe
/// of the other: first over the second half, then over the first; then over
/// both halves, and over the whole.
pub proof fn law_lpd_mode_field(a: int, b: int, c: int, d: int)
    requires
        0 <= a <= 1,
        0 <= b <= 1,
        0 <= c <= 1,
        0 <= d <= 1,
    ensures
        LpdModeSet::of_field(a + 2 * b + 4 * c + 8 * d) == seq![
            short_mode(a),
            short_mode(b),
            short_mode(c),
            short_mode(d),
        ],
        LpdModeSet::of_field(16 + a + 2 * b) == seq![
            LpdSubframeMode::Tcx40,
            LpdSubframeMode::Tcx40,
            short_mode(a),
            short_mode(b),
        ],
        LpdModeSet::of_field(20 + a + 2 * b) == seq![
            short_mode(a),
            short_mode(b),
            LpdSubframeMode::Tcx40,
            LpdSubframeMode::Tcx40,
        ],
        LpdModeSet::of_field(24) == seq![
            LpdSubframeMode::Tcx40,
            LpdSubframeMode::Tcx40,
            LpdSubframeMode::Tcx40,
            LpdSubframeMode::Tcx40,
        ],
        LpdModeSet::of_field(25) == seq![
            LpdSubframeMode::Tcx80,
            LpdSubframeMode::Tcx80,
            LpdSubframeMode::Tcx80,
            LpdSubframeMode::Tcx80,
        ],
{
    lemma2_to64();
    assert(LpdModeSet::of_field(a + 2 * b + 4 * c + 8 * d) =~= seq![
        short_mode(a),
        short_mode(b),
        short_mode(c),
        short_mode(d),
    ]);
    assert(LpdModeSet::of_field(16 + a + 2 * b) =~= seq![
        LpdSubframeMode::Tcx40,
        LpdSubframeMode::Tcx40,
        short_mode(a),
        short_mode(b),
    ]);
    assert(LpdModeSet::of_field(20 + a + 2 * b) =~= seq![
        short_mode(a),
        short_mode(b),
        LpdSubframeMode::Tcx40,
        LpdSubframeMode::Tcx40,
    ]);
    assert(LpdModeSet::of_field(24) =~= seq![
        LpdSubframeMode::Tcx40,
        LpdSubframeMode::Tcx40,
        LpdSubframeMode::Tcx40,
        LpdSubframeMode::Tcx40,
    ]);
    assert(LpdModeSet::of_field(25) =~= seq![
        LpdSubframeMode::Tcx80,
        LpdSubframeMode::Tcx80,
        LpdSubframeMode::Tcx80,
        LpdSubframeMode::Tcx80,
    ]);
}

/// The indices of a mode take as many bits as its budget has.
pub proof fn law_indices_fill_the_budget(core_mode: int)
    requires
        0 <= core_mode < 8,
    ensures
        acelp::indices_width(core_mode, 8) == CODE_BITS_PER_MODE[core_mode],
{
    reveal_with_fuel(acelp::indices_width, 9);
    assert(CODE_BITS_PER_MODE[0] == 20 && CODE_BITS_PER_MODE[1] == 28 && CODE_BITS_PER_MODE[2] == 36
        && CODE_BITS_PER_MODE[3] == 44);
    assert(CODE_BITS_PER_MODE[4] == 52 && CODE_BITS_PER_MODE[5] == 64 && CODE_BITS_PER_MODE[6] == 12
        && CODE_BITS_PER_MODE[7] == 16);
    assert(core_mode == 0 || core_mode == 1 || core_mode == 2 || core_mode == 3 || core_mode == 4
        || core_mode == 5 || core_mode == 6 || core_mode == 7);
}

proof fn lemma_indices_at(s: Seq<bool>, from: int, core_mode: int, n: nat, i: int)
    requires
        0 <= from,
        0 <= core_mode < 8,
        n <= 8,
        from + acelp::indices_width(core_mode, n) <= s.len(),
    ensures
        ({
            let (ix, c) = acelp::decode_indices(Cursor::at(s.skip(from)), core_mode, n);
            &&& c == Cursor::at(s.skip(from + acelp::indices_width(core_mode, n)))
            &&& ix.len() == 8
            &&& 0 <= i < n ==> ix[i] == layouts::number_at(
                s,
                from + acelp::indices_width(core_mode, i as nat),
                acelp::index_width(core_mode, i),
            )
        }),
    decreases n,
{
    if n > 0 {
        let k = (n - 1) as nat;
        lemma_indices_at(s, from, core_mode, k, i);
        let at = from + acelp::indices_width(core_mode, k);
        let w = acelp::index_width(core_mode, n - 1);
        layouts::lemma_read_at(s, at, w);
        lemma_index_width(core_mode, n - 1);
        layouts::lemma_number_bound(s, at, w);
        lemma2_to64();
        if w < 16 {
            lemma_pow2_strictly_increases(w, 16);
        }
        if w == 0 {
            layouts::lemma_number_of_nothing(s, at);
            lemma_unsent(s, from, core_mode, k);
        }
    } else {
        assert(s.skip(from + 0) =~= s.skip(from));
    }
}

proof fn lemma_unsent(s: Seq<bool>, from: int, core_mode: int, n: nat)
    requires
        n <= 8,
    ensures
        acelp::decode_indices(Cursor::at(s.skip(from)), core_mode, n).0.len() == 8,
        forall|i: int|
            n <= i < 8 ==> #[trigger] acelp::decode_indices(
                Cursor::at(s.skip(from)),
                core_mode,
                n,
            ).0[i] == 0,
    decreases n,
{
    if n > 0 {
        lemma_unsent(s, from, core_mode, (n - 1) as nat);
    }
}

proof fn lemma_index_width(core_mode: int, i: int)
    requires
        0 <= core_mode < 8,
        0 <= i < 8,
    ensures
        acelp::index_width(core_mode, i) <= 16,
{
    if i < 4 && core_mode != 5 {
        assert(CELP_INDEX_BITS[0][i] <= 16 && CELP_INDEX_BITS[1][i] <= 16 && CELP_INDEX_BITS[2][i]
            <= 16 && CELP_INDEX_BITS[3][i] <= 16);
        assert(CELP_INDEX_BITS[4][i] <= 16 && CELP_INDEX_BITS[5][i] <= 16 && CELP_INDEX_BITS[6][i]
            <= 16 && CELP_INDEX_BITS[7][i] <= 16);
        assert(core_mode == 0 || core_mode == 1 || core_mode == 2 || core_mode == 3 || core_mode
            == 4 || core_mode == 6 || core_mode == 7);
    }
}

/// The fields of a subframe: the lag in nine bits, or in six where it is
/// relative to the one before, the filtering flag, the codebook indices one
/// behind the other, and the gains in seven bits.
pub proof fn law_subframe_layout(s: Seq<bool>, core_mode: int, absolute: bool, i: int)
    requires
        0 <= core_mode < 8,
        0 <= i < 8,
        s.len() >= SubframeParams::width(core_mode, absolute),
    ensures
        ({
            let (p, c) = SubframeParams::decode(Cursor::at(s), core_mode, absolute);
            let a = if absolute { 9int } else { 6 };
            let bits = acelp::indices_width(core_mode, 8);
            &&& c == Cursor::at(s.skip(a + 8 + bits))
            &&& p.acb_index == layouts::number_at(s, 0, a as nat)
            &&& p.ltp_filtering == layouts::bit_at(s, a)
            &&& p.icb_index[i] == layouts::number_at(
                s,
                a + 1 + acelp::indices_width(core_mode, i as nat),
                acelp::index_width(core_mode, i),
            )
            &&& p.gain_index == layouts::number_at(s, a + 1 + bits, 7)
        }),
{
    let a = if absolute { 9nat } else { 6 };
    let bits = acelp::indices_width(core_mode, 8);
    assert(s.skip(0) =~= s);
    layouts::lemma_read_at(s, 0, a);
    layouts::lemma_flag_at(s, a as int);
    lemma_indices_at(s, a as int + 1, core_mode, 8, i);
    layouts::lemma_read_at(s, a as int + 1 + bits, 7);
}

/// The lag is absolute at the start of each half of a frame of four subframes
/// and at the start of a frame of two.
pub proof fn law_absolute_lags(sfr: int)
    ensures
        acelp::is_absolute(4, sfr) <==> sfr == 0 || sfr == 2,
        acelp::is_absolute(2, sfr) <==> sfr == 0,
{
}

/// A speech frame starts with its core mode, its mode field, and its mean
/// energy.
pub proof fn law_lpd_frame_layout(s: Seq<bool>)
    requires
        s.len() >= 10,
        LpdFrame::decode(Cursor::at(s)).1.fault is None,
    ensures
        ({
            let f = LpdFrame::decode(Cursor::at(s)).0;
            &&& f.core_mode == layouts::number_at(s, 0, 3)
            &&& layouts::number_at(s, 3, 5) == 0
            &&& f.frame.mean_energy == layouts::number_at(s, 8, 2)
        }),
{
    broadcast use {crate::bitstream::group_faulted, acelp::lemma_frame_after_fault};

    assert(s.skip(0) =~= s);
    layouts::lemma_read_at(s, 0, 3);
    layouts::lemma_read_at(s, 3, 5);
    layouts::lemma_read_at(s, 8, 2);
    layouts::lemma_number_bound(s, 0, 3);
    lemma2_to64();
    let mode = layouts::number_at(s, 3, 5) as int;
    if mode <= 25 {
        crate::decoder::usac::law_only_zero_is_all_acelp(mode);
    }
}

proof fn lemma_subframe_at(s: Seq<bool>, from: int, core_mode: int, n: nat, k: int)
    requires
        0 <= from,
        0 <= core_mode < 8,
        n <= 4,
        from + AcelpFrame::subframes_width(core_mode, 4, n) <= s.len(),
    ensures
        ({
            let (all, c) = AcelpFrame::decode_subframes(Cursor::at(s.skip(from)), core_mode, 4, n);
            &&& c == Cursor::at(s.skip(from + AcelpFrame::subframes_width(core_mode, 4, n)))
            &&& all.len() == n
            &&& 0 <= k < n ==> all[k] == SubframeParams::decode(
                Cursor::at(
                    s.skip(from + AcelpFrame::subframes_width(core_mode, 4, k as nat)),
                ),
                core_mode,
                k == 0 || k == 2,
            ).0
        }),
    decreases n,
{
    if n > 0 {
        let m = (n - 1) as nat;
        lemma_subframe_at(s, from, core_mode, m, k);
        let at = from + AcelpFrame::subframes_width(core_mode, 4, m);
        let absolute = m == 0 || m == 2;
        law_subframe_layout(s.skip(at), core_mode, absolute, 0);
        let w = SubframeParams::width(core_mode, absolute) as int;
        assert(s.skip(at).skip(w) =~= s.skip(at + w));
    } else {
        assert(s.skip(from + 0) =~= s.skip(from));
    }
}

/// A speech frame whose mode field is zero and that is long enough is
/// accepted. Its four subframes follow the mean energy; the first and the third
/// have a lag of their own and are three bits longer than the others.
pub proof fn law_subframes_of_a_frame(s: Seq<bool>, k: int)
    requires
        s.len() >= 10 + 9 + 6 + 9 + 6 + 4 * (8 + acelp::indices_width(
            layouts::number_at(s, 0, 3) as int,
            8,
        )),
        layouts::number_at(s, 3, 5) == 0,
        0 <= k < 4,
    ensures
        ({
            let (f, c) = LpdFrame::decode(Cursor::at(s));
            let core_mode = layouts::number_at(s, 0, 3) as int;
            let each = acelp::indices_width(core_mode, 8) as int + 8;
            let at = 10 + k * (each + 6) + if k == 0 {
                0int
            } else if k <= 2 {
                3
            } else {
                6
            };
            &&& c == Cursor::at(s.skip(10 + 30 + 4 * each))
            &&& f.frame.subframes.len() == 4
            &&& f.frame.subframes[k] == SubframeParams::decode(
                Cursor::at(s.skip(at)),
                core_mode,
                k == 0 || k == 2,
            ).0
        }),
{
    assert(s.skip(0) =~= s);
    layouts::lemma_read_at(s, 0, 3);
    layouts::lemma_read_at(s, 3, 5);
    layouts::lemma_read_at(s, 8, 2);
    layouts::lemma_number_bound(s, 0, 3);
    lemma2_to64();
    crate::decoder::usac::law_only_zero_is_all_acelp(0);
    let core_mode = layouts::number_at(s, 0, 3) as int;
    let each = acelp::indices_width(core_mode, 8) as int + 8;
    reveal_with_fuel(AcelpFrame::subframes_width, 5);
    assert(AcelpFrame::subframes_width(core_mode, 4, 1) == each + 9);
    assert(AcelpFrame::subframes_width(core_mode, 4, 2) == 2 * each + 15);
    assert(AcelpFrame::subframes_width(core_mode, 4, 3) == 3 * each + 24);
    assert(AcelpFrame::subframes_width(core_mode, 4, 4) == 4 * each + 30);
    lemma_subframe_at(s, 10, core_mode, 4, k);
    assert(k == 0 || k == 1 || k == 2 || k == 3);
    assert(k * (each + 6) == if k == 0 {
        0
    } else if k == 1 {
        each + 6
    } else if k == 2 {
        2 * (each + 6)
    } else {
        3 * (each + 6)
    }) by (nonlinear_arith)
        requires
            k == 0 || k == 1 || k == 2 || k == 3,
    ;
}

/// Division that rounds towards zero leaves less than the divisor, on the side
/// of zero that the number is on.
pub proof fn law_truncating(a: int, b: int)
    requires
        b > 0,
    ensures
        ({
            let left = a - b * acelp::truncating(a, b);
            &&& a >= 0 ==> 0 <= left < b
            &&& a <= 0 ==> -b < left <= 0
        }),
{
    let m = if a >= 0 { a } else { -a };
    vstd::arithmetic::div_mod::lemma_fundamental_div_mod(m, b);
    assert(b * (-(m / b)) == -(b * (m / b))) by (nonlinear_arith);
    if a == 0 {
        vstd::arithmetic::div_mod::lemma_div_basics(b);
        assert(b * (0int / b) == 0) by (nonlinear_arith)
            requires
                0int / b == 0,
        ;
    }
}

} // verus!
