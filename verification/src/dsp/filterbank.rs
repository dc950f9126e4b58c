//! Placement of the short transforms inside a frame.
//!
//! A frame's block spans two frame periods. Eight short transforms sit in its
//! middle, each overlapping the next by half.

use vstd::prelude::*;

verus! {

/// Where short sub-window `index` starts inside the block of `2n` samples.
pub open spec fn short_offset(n: int, index: int) -> int {
    (n - n / 8) / 2 + index * (n / 8)
}

/// Offset of short sub-window `index` inside the `2n` frame block.
pub fn short_window_offset(n: usize, index: usize) -> (r: usize)
    requires
        short_offset(n as int, index as int) <= usize::MAX,
    ensures
        r == short_offset(n as int, index as int),
{
    let sn: usize = n / 8;
    assert(0 <= index * sn) by (nonlinear_arith)
        requires
            index >= 0,
            sn >= 0,
    ;
    (n - sn) / 2 + index * sn
}

/// The eight sub-windows of `2 * (n / 8)` samples each fit into the block, and
/// each starts in the middle of the one before.
pub proof fn law_short_windows_fit(n: nat, index: nat)
    requires
        index < 8,
    ensures
        0 <= short_offset(n as int, index as int),
        short_offset(n as int, index as int) + 2 * (n / 8) <= 2 * n,
        short_offset(n as int, index as int + 1) == short_offset(n as int, index as int) + n / 8,
{
    let sn = n as int / 8;
    assert((index + 1) * sn == index * sn + sn) by (nonlinear_arith);
    assert(0 <= index * sn <= 7 * sn) by (nonlinear_arith)
        requires
            0 <= index <= 7,
            sn >= 0,
    ;
}

/// The eight sub-windows stand in the middle of the block: as many samples
/// come before the first as after the last.
pub proof fn law_short_windows_are_centred(n: nat)
    requires
        n % 16 == 0,
    ensures
        short_offset(n as int, 0) == 2 * n - (short_offset(n as int, 7) + 2 * (n / 8)),
{
    let sn = n as int / 8;
    assert(7 * sn == sn * 7) by (nonlinear_arith);
    assert(0 * sn == 0) by (nonlinear_arith);
}

} // verus!
