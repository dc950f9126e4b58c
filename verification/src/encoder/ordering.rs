//! Where each line of a frame of short windows stands in the coding order.

use crate::encoder::aac::block_switch;
use crate::encoder::aac::block_switch::BlockDecision;
use crate::encoder::engine;
use crate::encoder::engine::Geometry;
use crate::types::WindowSequence;
use vstd::arithmetic::mul::*;
use vstd::prelude::*;

verus! {

/// Band offsets that start at zero and do not fall.
pub open spec fn are_offsets(offsets: Seq<usize>, m: int) -> bool {
    &&& m < offsets.len()
    &&& offsets[0] == 0
    &&& forall|j: int, k: int| 0 <= j <= k <= m ==> #[trigger] offsets[j] <= #[trigger] offsets[k]
}

proof fn lemma_band_place(short_n: int, first: int, lo: int, hi: int, n: nat, w: int, i: int)
    requires
        0 <= w < n,
        0 <= i < hi - lo,
    ensures
        engine::band_sources(short_n, first, lo, hi, n).len() == n * (hi - lo),
        0 <= w * (hi - lo) + i < n * (hi - lo),
        engine::band_sources(short_n, first, lo, hi, n)[w * (hi - lo) + i] == ((first + w) * short_n
            + lo + i) as usize,
    decreases n,
{
    let width = hi - lo;
    let before = engine::band_sources(short_n, first, lo, hi, (n - 1) as nat);
    lemma_band_len(short_n, first, lo, hi, n);
    lemma_band_len(short_n, first, lo, hi, (n - 1) as nat);
    assert(0 <= w * width + i < n * width) by (nonlinear_arith)
        requires
            0 <= w < n,
            0 <= i < width,
    ;
    if w < n - 1 {
        lemma_band_place(short_n, first, lo, hi, (n - 1) as nat, w, i);
    } else {
        assert(w * width == (n - 1) * width);
    }
}

proof fn lemma_band_len(short_n: int, first: int, lo: int, hi: int, n: nat)
    requires
        lo <= hi,
    ensures
        engine::band_sources(short_n, first, lo, hi, n).len() == n * (hi - lo),
    decreases n,
{
    if n > 0 {
        lemma_band_len(short_n, first, lo, hi, (n - 1) as nat);
        assert((n - 1) * (hi - lo) + (hi - lo) == n * (hi - lo)) by (nonlinear_arith);
    }
}

proof fn lemma_group_len(offsets: Seq<usize>, short_n: int, first: int, length: nat, m: nat)
    requires
        are_offsets(offsets, m as int),
    ensures
        engine::group_sources(offsets, short_n, first, length, m).len() == length
            * offsets[m as int],
    decreases m,
{
    if m > 0 {
        lemma_group_len(offsets, short_n, first, length, (m - 1) as nat);
        let lo = offsets[m - 1] as int;
        let hi = offsets[m as int] as int;
        lemma_band_len(short_n, first, lo, hi, length);
        assert(length * lo + length * (hi - lo) == length * hi) by (nonlinear_arith);
    } else {
        lemma_mul_basics(length as int);
    }
}

proof fn lemma_group_place(
    offsets: Seq<usize>,
    short_n: int,
    first: int,
    length: nat,
    m: nat,
    b: int,
    w: int,
    i: int,
)
    requires
        are_offsets(offsets, m as int),
        0 <= b < m,
        0 <= w < length,
        0 <= i < offsets[b + 1] - offsets[b],
    ensures
        ({
            let place = length * offsets[b] + w * (offsets[b + 1] - offsets[b]) + i;
            &&& 0 <= place < length * offsets[m as int]
            &&& engine::group_sources(offsets, short_n, first, length, m)[place] == ((first + w)
                * short_n + offsets[b] + i) as usize
        }),
    decreases m,
{
    let lo = offsets[b] as int;
    let hi = offsets[b + 1] as int;
    lemma_group_len(offsets, short_n, first, length, m);
    lemma_group_len(offsets, short_n, first, length, (m - 1) as nat);
    lemma_band_place(short_n, first, lo, hi, length, w, i);
    assert(length * lo + length * (hi - lo) == length * hi) by (nonlinear_arith);
    assert(length * hi <= length * offsets[m as int]) by {
        assert(offsets[b + 1] <= offsets[m as int]);
        lemma_mul_inequality(hi, offsets[m as int] as int, length as int);
        lemma_mul_is_commutative(hi, length as int);
        lemma_mul_is_commutative(offsets[m as int] as int, length as int);
    }
    assert(0 <= length * lo) by {
        lemma_mul_nonnegative(length as int, lo);
    }
    if b < m - 1 {
        lemma_group_place(offsets, short_n, first, length, (m - 1) as nat, b, w, i);
    }
}

proof fn lemma_frame_len(
    offsets: Seq<usize>,
    short_n: int,
    groups: Seq<usize>,
    m: nat,
    n: nat,
)
    requires
        are_offsets(offsets, m as int),
        n <= groups.len(),
    ensures
        engine::frame_sources(offsets, short_n, groups, m, n).len() == block_switch::windows_in(
            groups,
            n as int,
        ) * offsets[m as int],
    decreases n,
{
    if n > 0 {
        lemma_frame_len(offsets, short_n, groups, m, (n - 1) as nat);
        let first = block_switch::windows_in(groups, n - 1);
        let length = groups[n - 1] as nat;
        lemma_group_len(offsets, short_n, first, length, m);
        lemma_mul_is_distributive_add_other_way(offsets[m as int] as int, first, length as int);
    }
}

/// Line `i` of band `b` of window `w` of group `g` stands behind all lines of
/// the groups before, behind the lower bands of all windows of its own group,
/// and behind the same band of the windows before it in the group. So the
/// windows of a group follow one another in time within each band.
pub proof fn law_place_in_coding_order(
    offsets: Seq<usize>,
    short_n: int,
    groups: Seq<usize>,
    m: nat,
    n: nat,
    g: int,
    b: int,
    w: int,
    i: int,
)
    requires
        are_offsets(offsets, m as int),
        n <= groups.len(),
        0 <= g < n,
        0 <= b < m,
        0 <= w < groups[g],
        0 <= i < offsets[b + 1] - offsets[b],
    ensures
        ({
            let first = block_switch::windows_in(groups, g);
            let order = engine::frame_sources(offsets, short_n, groups, m, n);
            let place = first * offsets[m as int] + groups[g] * offsets[b] + w * (offsets[b + 1]
                - offsets[b]) + i;
            &&& 0 <= place < order.len()
            &&& order[place] == ((first + w) * short_n + offsets[b] + i) as usize
        }),
    decreases n,
{
    let first = block_switch::windows_in(groups, n - 1);
    let length = groups[n - 1] as nat;
    lemma_frame_len(offsets, short_n, groups, m, n);
    lemma_frame_len(offsets, short_n, groups, m, (n - 1) as nat);
    lemma_group_len(offsets, short_n, first, length, m);
    engine::lemma_windows_bound(groups, n - 1, n as int);
    lemma_mul_nonnegative(first, offsets[m as int] as int);
    if g < n - 1 {
        law_place_in_coding_order(offsets, short_n, groups, m, (n - 1) as nat, g, b, w, i);
    } else {
        lemma_group_place(offsets, short_n, first, length, m, b, w, i);
    }
}

/// A frame of long windows is coded as it stands, and one of short windows in
/// the order of its groups.
pub proof fn law_coding_order(g: Geometry, d: BlockDecision, n: nat, i: int)
    requires
        n <= usize::MAX,
    ensures
        d.sequence != WindowSequence::EightShortSequence ==> engine::coding_order(g, d, n).len()
            == n,
        d.sequence != WindowSequence::EightShortSequence && 0 <= i < n ==> engine::coding_order(
            g,
            d,
            n,
        )[i] == i,
        d.sequence == WindowSequence::EightShortSequence ==> engine::coding_order(g, d, n)
            == engine::frame_sources(
            g.short_offsets@,
            n as int / 8,
            d.groups@,
            g.short_max_sfb as nat,
            d.group_count as nat,
        ),
{
}

/// The coding table says where the coding order has each band: band `b` of
/// group `g` starts behind all lines of the groups before and the lower bands of
/// its own.
pub proof fn law_coding_table_follows_the_order(
    offsets: Seq<usize>,
    groups: Seq<usize>,
    m: int,
    g: int,
    b: int,
)
    requires
        are_offsets(offsets, m),
        m > 0,
        0 <= g < groups.len(),
        0 <= b <= m,
    ensures
        engine::short_offset(offsets, groups, m, g * m + b) == block_switch::windows_in(groups, g)
            * offsets[m] + groups[g] * offsets[b],
    decreases g, b,
{
    if b > 0 {
        law_coding_table_follows_the_order(offsets, groups, m, g, b - 1);
        let k = g * m + (b - 1);
        assert(k / m == g && k % m == b - 1) by (nonlinear_arith)
            requires
                k == g * m + (b - 1),
                0 <= b - 1 < m,
                g >= 0,
        ;
        assert(k >= 0) by (nonlinear_arith)
            requires
                k == g * m + (b - 1),
                b >= 1,
                g >= 0,
                m > 0,
        ;
        let lo = offsets[b - 1] as int;
        let hi = offsets[b] as int;
        let len = groups[g] as int;
        assert(len * lo + (hi - lo) * len == len * hi) by (nonlinear_arith);
    } else if g > 0 {
        law_coding_table_follows_the_order(offsets, groups, m, g - 1, m);
        assert((g - 1) * m + m == g * m) by (nonlinear_arith);
        lemma_mul_is_distributive_add_other_way(
            offsets[m] as int,
            block_switch::windows_in(groups, g - 1),
            groups[g - 1] as int,
        );
        lemma_mul_basics(groups[g] as int);
    } else {
        lemma_mul_basics(m);
        lemma_mul_basics(groups[g] as int);
        lemma_mul_basics(offsets[m] as int);
    }
}

} // verus!
