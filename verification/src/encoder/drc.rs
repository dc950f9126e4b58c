//! Writing dynamic range metadata.
//!
//! An encoder that wants players to be able to level-match its output has to
//! say how loud the programme is. The measurement is floating point; this
//! module writes its result as the `dynamic_range_info()` element that
//! [`crate::decoder::drc`] reads back.

use crate::bits;
use crate::bitstream;
use crate::bitstream::{BitWriter, Cursor};
use crate::decoder::drc as reading;
use crate::decoder::drc::{DrcInfo, DrcView};
use vstd::arithmetic::power2::*;
use vstd::prelude::*;

verus! {

/// Largest gain the seven-bit field can carry, in quarter decibels.
pub const MAX_GAIN_STEPS: i32 = 127;

/// A further mask that excludes the eighth channel and no other, and after
/// which none follows.
pub const EIGHTH_CHANNEL: u8 = 0x80;

/// The exclusion bits of channels `k` to `n`, before `rest`.
pub open spec fn mask_field(included: Seq<bool>, k: int, n: int, rest: Seq<bool>) -> Seq<bool>
    decreases n - k,
{
    if k >= n {
        rest
    } else {
        bits::flag(!included[k], mask_field(included, k + 1, n, rest))
    }
}

/// The ends of bands `k` to `n`, before `rest`, in steps of four lines.
pub open spec fn tops_field(tops: Seq<usize>, k: int, n: int, rest: Seq<bool>) -> Seq<bool>
    decreases n - k,
{
    if k >= n {
        rest
    } else {
        bits::field((tops[k] / 4 - 1) as nat, 8, tops_field(tops, k + 1, n, rest))
    }
}

pub open spec fn magnitude(gain: i8) -> nat {
    if gain < 0 {
        (-(gain as int)) as nat
    } else {
        gain as nat
    }
}

/// The gains of bands `k` to `n`, before `rest`: a sign and a magnitude each.
pub open spec fn gains_field(gains: Seq<i8>, k: int, n: int, rest: Seq<bool>) -> Seq<bool>
    decreases n - k,
{
    if k >= n {
        rest
    } else {
        bits::flag(
            gains[k] < 0,
            bits::field(magnitude(gains[k]), 7, gains_field(gains, k + 1, n, rest)),
        )
    }
}

/// Whether any of the eight channels is excluded.
pub open spec fn excludes_any(included: Seq<bool>) -> bool {
    exists|i: int| 0 <= i < included.len() && !#[trigger] included[i]
}

/// What follows the exclusion bits of the first seven channels, before `rest`:
/// a further mask if the eighth channel is excluded, whose first bit is that
/// channel's, and otherwise a bit that says that none follows.
pub open spec fn eighth_field(included: Seq<bool>, rest: Seq<bool>) -> Seq<bool> {
    if included[7] {
        bits::flag(false, rest)
    } else {
        bits::flag(true, bits::field(EIGHTH_CHANNEL as nat, 8, rest))
    }
}

/// The element, before `rest`.
pub open spec fn element(info: DrcView, rest: Seq<bool>) -> Seq<bool> {
    let n = info.bands as int;
    let rest = gains_field(info.gain, 0, n, rest);
    let rest = match info.reference_level {
        Some(level) => bits::flag(true, bits::field(level as nat, 7, bits::flag(false, rest))),
        None => bits::flag(false, rest),
    };
    let rest = if n > 1 {
        bits::flag(
            true,
            bits::field(
                (n - 1) as nat,
                4,
                bits::field(
                    info.interpolation_scheme as nat,
                    4,
                    tops_field(info.band_top, 0, n, rest),
                ),
            ),
        )
    } else {
        bits::flag(false, rest)
    };
    let rest = if excludes_any(info.channel_included) {
        bits::flag(
            true,
            mask_field(info.channel_included, 0, 7, eighth_field(info.channel_included, rest)),
        )
    } else {
        bits::flag(false, rest)
    };
    bits::flag(false, rest)
}

fn write_mask(w: &mut BitWriter, included: &[bool; 8])
    ensures
        forall|rest: Seq<bool>|
            #[trigger] (final(w)@ + rest) == old(w)@ + mask_field(included@, 0, 7, rest),
{
    let ghost start = w@;
    let mut k: usize = 0;
    while k < 7
        invariant
            k <= 7,
            forall|rest: Seq<bool>|
                #[trigger] (w@ + mask_field(included@, k as int, 7, rest)) == start + mask_field(
                    included@,
                    0,
                    7,
                    rest,
                ),
        decreases 7 - k,
    {
        let ghost before = w@;
        w.write_bit(!included[k]);
        proof {
            assert forall|rest: Seq<bool>|
                #[trigger] (w@ + mask_field(included@, k + 1, 7, rest)) == start + mask_field(
                    included@,
                    0,
                    7,
                    rest,
                ) by {
                bits::lemma_append_flag(
                    before,
                    !included@[k as int],
                    mask_field(included@, k + 1, 7, rest),
                );
                assert(before + mask_field(included@, k as int, 7, rest) == start + mask_field(
                    included@,
                    0,
                    7,
                    rest,
                ));
            }
        }
        k += 1;
    }
    proof {
        assert forall|rest: Seq<bool>|
            #[trigger] (w@ + rest) == start + mask_field(included@, 0, 7, rest) by {
            assert(w@ + mask_field(included@, k as int, 7, rest) == start + mask_field(
                included@,
                0,
                7,
                rest,
            ));
        }
    }
}

fn write_tops(w: &mut BitWriter, tops: &[usize; 16], n: usize)
    requires
        n <= 16,
        forall|b: int| 0 <= b < n ==> #[trigger] tops@[b] >= 4,
    ensures
        forall|rest: Seq<bool>|
            #[trigger] (final(w)@ + rest) == old(w)@ + tops_field(tops@, 0, n as int, rest),
{
    let ghost start = w@;
    let ghost m = n as int;
    let mut k: usize = 0;
    while k < n
        invariant
            k <= n <= 16,
            m == n,
            forall|b: int| 0 <= b < n ==> #[trigger] tops@[b] >= 4,
            forall|rest: Seq<bool>|
                #[trigger] (w@ + tops_field(tops@, k as int, m, rest)) == start + tops_field(
                    tops@,
                    0,
                    m,
                    rest,
                ),
        decreases n - k,
    {
        let ghost before = w@;
        assert(tops@[k as int] >= 4);
        w.write_bits((tops[k] / 4 - 1) as u64, 8);
        proof {
            assert forall|rest: Seq<bool>|
                #[trigger] (w@ + tops_field(tops@, k + 1, m, rest)) == start + tops_field(
                    tops@,
                    0,
                    m,
                    rest,
                ) by {
                bits::lemma_append_field(
                    before,
                    (tops@[k as int] / 4 - 1) as nat,
                    8,
                    tops_field(tops@, k + 1, m, rest),
                );
                assert(before + tops_field(tops@, k as int, m, rest) == start + tops_field(
                    tops@,
                    0,
                    m,
                    rest,
                ));
            }
        }
        k += 1;
    }
    proof {
        assert forall|rest: Seq<bool>|
            #[trigger] (w@ + rest) == start + tops_field(tops@, 0, m, rest) by {
            assert(w@ + tops_field(tops@, k as int, m, rest) == start + tops_field(
                tops@,
                0,
                m,
                rest,
            ));
        }
    }
}

fn unsigned_abs(gain: i8) -> (r: u8)
    ensures
        r == magnitude(gain),
{
    if gain == i8::MIN {
        128
    } else if gain < 0 {
        (-gain) as u8
    } else {
        gain as u8
    }
}

fn write_gains(w: &mut BitWriter, gains: &[i8; 16], n: usize)
    requires
        n <= 16,
    ensures
        forall|rest: Seq<bool>|
            #[trigger] (final(w)@ + rest) == old(w)@ + gains_field(gains@, 0, n as int, rest),
{
    let ghost start = w@;
    let ghost m = n as int;
    let mut k: usize = 0;
    while k < n
        invariant
            k <= n <= 16,
            m == n,
            forall|rest: Seq<bool>|
                #[trigger] (w@ + gains_field(gains@, k as int, m, rest)) == start + gains_field(
                    gains@,
                    0,
                    m,
                    rest,
                ),
        decreases n - k,
    {
        let ghost before = w@;
        let gain: i8 = gains[k];
        w.write_bit(gain < 0);
        let ghost mid = w@;
        w.write_u8(unsigned_abs(gain), 7);
        proof {
            assert forall|rest: Seq<bool>|
                #[trigger] (w@ + gains_field(gains@, k + 1, m, rest)) == start + gains_field(
                    gains@,
                    0,
                    m,
                    rest,
                ) by {
                let tail = gains_field(gains@, k + 1, m, rest);
                bits::lemma_append_field(mid, magnitude(gain), 7, tail);
                bits::lemma_append_flag(before, gain < 0, bits::field(magnitude(gain), 7, tail));
                assert(before + gains_field(gains@, k as int, m, rest) == start + gains_field(
                    gains@,
                    0,
                    m,
                    rest,
                ));
            }
        }
        k += 1;
    }
    proof {
        assert forall|rest: Seq<bool>|
            #[trigger] (w@ + rest) == start + gains_field(gains@, 0, m, rest) by {
            assert(w@ + gains_field(gains@, k as int, m, rest) == start + gains_field(
                gains@,
                0,
                m,
                rest,
            ));
        }
    }
}

fn any_excluded(included: &[bool; 8]) -> (r: bool)
    ensures
        r == excludes_any(included@),
{
    let mut k: usize = 0;
    while k < 8
        invariant
            k <= 8,
            forall|i: int| 0 <= i < k ==> #[trigger] included@[i],
        decreases 8 - k,
    {
        if !included[k] {
            assert(!included@[k as int]);
            return true;
        }
        k += 1;
    }
    false
}

/// Write one `dynamic_range_info()` element.
pub fn write_dynamic_range_info(w: &mut BitWriter, info: &DrcInfo)
    requires
        info.bands <= 16,
        info.bands > 1 ==> forall|b: int| 0 <= b < info.bands ==> #[trigger] info.band_top@[b] >= 4,
    ensures
        final(w)@ == old(w)@ + element(info@, Seq::empty()),
{
    let ghost w0 = w@;
    let ghost v = info@;
    let ghost n = info.bands as int;
    w.write_bit(false);  // pce_tag_present
    let ghost w1 = w@;
    let excludes: bool = any_excluded(&info.channel_included);
    w.write_bit(excludes);
    let ghost w2 = w@;
    let ghost mut wm = w2;
    let ghost mut we = w2;
    if excludes {
        write_mask(w, &info.channel_included);
        proof {
            wm = w@;
        }
        w.write_bit(!info.channel_included[7]);
        proof {
            we = w@;
        }
        if !info.channel_included[7] {
            w.write_u8(EIGHTH_CHANNEL, 8);
        }
    }
    let ghost w3 = w@;
    let multiband: bool = info.bands > 1;
    w.write_bit(multiband);
    let ghost w4 = w@;
    let ghost mut w5 = w4;
    let ghost mut w6 = w4;
    if multiband {
        w.write_u8((info.bands - 1) as u8, 4);
        proof {
            w5 = w@;
        }
        w.write_u8(info.interpolation_scheme, 4);
        proof {
            w6 = w@;
        }
        write_tops(w, &info.band_top, info.bands);
    }
    let ghost w7 = w@;
    let ghost mut w8 = w7;
    let ghost mut w9 = w7;
    match info.reference_level {
        Some(level) => {
            w.write_bit(true);
            proof {
                w8 = w@;
            }
            w.write_u8(level, 7);
            proof {
                w9 = w@;
            }
            w.write_bit(false);
        },
        None => {
            w.write_bit(false);
        },
    }
    let ghost w10 = w@;
    write_gains(w, &info.gain, info.bands);
    proof {
        let none = Seq::<bool>::empty();
        bits::lemma_append_nothing(w@);
        let r10 = gains_field(v.gain, 0, n, none);
        assert(w@ + none == w10 + r10);
        let r7 = match v.reference_level {
            Some(level) => bits::flag(true, bits::field(level as nat, 7, bits::flag(false, r10))),
            None => bits::flag(false, r10),
        };
        assert(w10 + r10 == w7 + r7) by {
            match v.reference_level {
                Some(level) => {
                    bits::lemma_append_flag(w9, false, r10);
                    bits::lemma_append_field(w8, level as nat, 7, bits::flag(false, r10));
                    bits::lemma_append_flag(
                        w7,
                        true,
                        bits::field(level as nat, 7, bits::flag(false, r10)),
                    );
                },
                None => {
                    bits::lemma_append_flag(w7, false, r10);
                },
            }
        }
        let tops = tops_field(v.band_top, 0, n, r7);
        let scheme = v.interpolation_scheme as nat;
        let r3 = if n > 1 {
            bits::flag(true, bits::field((n - 1) as nat, 4, bits::field(scheme, 4, tops)))
        } else {
            bits::flag(false, r7)
        };
        assert(w7 + r7 == w3 + r3) by {
            if n > 1 {
                assert(w7 + r7 == w6 + tops);
                bits::lemma_append_field(w5, scheme, 4, tops);
                bits::lemma_append_field(w4, (n - 1) as nat, 4, bits::field(scheme, 4, tops));
                bits::lemma_append_flag(
                    w3,
                    true,
                    bits::field((n - 1) as nat, 4, bits::field(scheme, 4, tops)),
                );
            } else {
                bits::lemma_append_flag(w3, false, r7);
            }
        }
        let re = eighth_field(v.channel_included, r3);
        let r1 = if excludes_any(v.channel_included) {
            bits::flag(true, mask_field(v.channel_included, 0, 7, re))
        } else {
            bits::flag(false, r3)
        };
        assert(w3 + r3 == w1 + r1) by {
            if excludes_any(v.channel_included) {
                if v.channel_included[7] {
                    bits::lemma_append_flag(wm, false, r3);
                } else {
                    let further = bits::field(EIGHTH_CHANNEL as nat, 8, r3);
                    bits::lemma_append_field(we, EIGHTH_CHANNEL as nat, 8, r3);
                    bits::lemma_append_flag(wm, true, further);
                }
                assert(wm + re == w2 + mask_field(v.channel_included, 0, 7, re));
                bits::lemma_append_flag(w1, true, mask_field(v.channel_included, 0, 7, re));
            } else {
                bits::lemma_append_flag(w1, false, r3);
            }
        }
        bits::lemma_append_flag(w0, false, r1);
    }
}

/// Whether an element says everything there is to say: every field fits its
/// place, and what is not sent has the value that stands for that.
pub open spec fn is_sayable(info: DrcView) -> bool {
    &&& 1 <= info.bands <= 16
    &&& info.band_top.len() == 16
    &&& info.gain.len() == 16
    &&& info.channel_included.len() == 8
    &&& info.reference_level matches Some(level) ==> level < 128
    &&& info.interpolation_scheme < 16
    &&& info.bands == 1 ==> info.interpolation_scheme == 0
    &&& forall|b: int|
        0 <= b < 16 ==> if b < info.bands && info.bands > 1 {
            4 <= #[trigger] info.band_top[b] <= 1024 && info.band_top[b] % 4 == 0
        } else {
            info.band_top[b] == usize::MAX
        }
    &&& forall|b: int|
        0 <= b < 16 ==> if b < info.bands {
            #[trigger] info.gain[b] > i8::MIN
        } else {
            info.gain[b] == 0
        }
}

proof fn lemma_mask(included: Seq<bool>, k: int, rest: Seq<bool>)
    requires
        0 <= k <= 7,
        included.len() == 8,
    ensures
        reading::read_mask(Cursor::at(mask_field(included, 0, 7, rest)), k as nat) == (
            included.take(k) + Seq::new((8 - k) as nat, |i: int| true),
            Cursor::at(mask_field(included, k, 7, rest)),
        ),
    decreases k,
{
    let c = Cursor::at(mask_field(included, 0, 7, rest));
    if k == 0 {
        assert(reading::all_included() =~= included.take(0) + Seq::new(8, |i: int| true));
    } else {
        lemma_mask(included, k - 1, rest);
        bitstream::lemma_read_flag(!included[k - 1], mask_field(included, k, 7, rest));
        assert((included.take(k - 1) + Seq::new((8 - k + 1) as nat, |i: int| true)).update(
            k - 1,
            !(!included[k - 1]),
        ) =~= included.take(k) + Seq::new((8 - k) as nat, |i: int| true));
    }
}

proof fn lemma_tops(tops: Seq<usize>, k: int, n: int, rest: Seq<bool>)
    requires
        0 <= k <= n <= 16,
        tops.len() == 16,
        forall|b: int| 0 <= b < n ==> 4 <= #[trigger] tops[b] <= 1024 && tops[b] % 4 == 0,
    ensures
        reading::read_tops(Cursor::at(tops_field(tops, 0, n, rest)), k as nat) == (
            tops.take(k) + Seq::new((16 - k) as nat, |b: int| usize::MAX),
            Cursor::at(tops_field(tops, k, n, rest)),
        ),
    decreases k,
{
    if k == 0 {
        assert(Seq::new(16, |b: int| usize::MAX) =~= tops.take(0) + Seq::new(
            16,
            |b: int| usize::MAX,
        ));
    } else {
        lemma_tops(tops, k - 1, n, rest);
        lemma2_to64();
        assert(4 <= tops[k - 1] <= 1024 && tops[k - 1] % 4 == 0);
        let v = (tops[k - 1] / 4 - 1) as nat;
        bitstream::lemma_read_field(v, 8, tops_field(tops, k, n, rest));
        assert(4 * (v + 1) == tops[k - 1]);
        assert((tops.take(k - 1) + Seq::new((16 - k + 1) as nat, |b: int| usize::MAX)).update(
            k - 1,
            tops[k - 1],
        ) =~= tops.take(k) + Seq::new((16 - k) as nat, |b: int| usize::MAX));
    }
}

proof fn lemma_gains(gains: Seq<i8>, k: int, n: int, rest: Seq<bool>)
    requires
        0 <= k <= n <= 16,
        gains.len() == 16,
        forall|b: int| 0 <= b < n ==> #[trigger] gains[b] > i8::MIN,
    ensures
        reading::read_gains(Cursor::at(gains_field(gains, 0, n, rest)), k as nat) == (
            gains.take(k) + Seq::new((16 - k) as nat, |b: int| 0i8),
            Cursor::at(gains_field(gains, k, n, rest)),
        ),
    decreases k,
{
    if k == 0 {
        assert(Seq::new(16, |b: int| 0i8) =~= gains.take(0) + Seq::new(16, |b: int| 0i8));
    } else {
        lemma_gains(gains, k - 1, n, rest);
        lemma2_to64();
        assert(gains[k - 1] > i8::MIN);
        let tail = gains_field(gains, k, n, rest);
        bitstream::lemma_read_flag(
            gains[k - 1] < 0,
            bits::field(magnitude(gains[k - 1]), 7, tail),
        );
        bitstream::lemma_read_field(magnitude(gains[k - 1]), 7, tail);
        assert((gains.take(k - 1) + Seq::new((16 - k + 1) as nat, |b: int| 0i8)).update(
            k - 1,
            gains[k - 1],
        ) =~= gains.take(k) + Seq::new((16 - k) as nat, |b: int| 0i8));
    }
}

/// An element that was written comes back unchanged when it is read, whatever
/// follows it.
pub proof fn law_drc_roundtrip(info: DrcView, rest: Seq<bool>)
    requires
        is_sayable(info),
    ensures
        DrcInfo::decode(Cursor::at(element(info, rest))) == (info, Cursor::at(rest)),
{
    lemma2_to64();
    let n = info.bands as int;
    let r5 = gains_field(info.gain, 0, n, rest);
    lemma_gains(info.gain, n, n, rest);
    assert(info.gain.take(n) + Seq::new((16 - n) as nat, |b: int| 0i8) =~= info.gain);
    let r4 = match info.reference_level {
        Some(level) => bits::flag(true, bits::field(level as nat, 7, bits::flag(false, r5))),
        None => bits::flag(false, r5),
    };
    let r3 = if n > 1 {
        bits::flag(
            true,
            bits::field(
                (n - 1) as nat,
                4,
                bits::field(
                    info.interpolation_scheme as nat,
                    4,
                    tops_field(info.band_top, 0, n, r4),
                ),
            ),
        )
    } else {
        bits::flag(false, r4)
    };
    let included = info.channel_included;
    let r2 = if excludes_any(included) {
        bits::flag(true, mask_field(included, 0, 7, eighth_field(included, r3)))
    } else {
        bits::flag(false, r3)
    };
    bitstream::lemma_read_flag(false, r2);
    if excludes_any(included) {
        let eighth = eighth_field(included, r3);
        let found = included.take(7) + Seq::new(1, |i: int| true);
        bitstream::lemma_read_flag(true, mask_field(included, 0, 7, eighth));
        lemma_mask(included, 7, eighth);
        if included[7] {
            bitstream::lemma_read_flag(false, r3);
            assert(found =~= included);
        } else {
            let further = bits::field(EIGHTH_CHANNEL as nat, 8, r3);
            bitstream::lemma_read_flag(true, further);
            bitstream::lemma_read_field(EIGHTH_CHANNEL as nat, 8, r3);
            assert(found.update(7, false) =~= included);
        }
    } else {
        bitstream::lemma_read_flag(false, r3);
        assert forall|i: int| 0 <= i < 8 implies included[i] by {}
        assert(reading::all_included() =~= included);
    }
    if n > 1 {
        let tops = tops_field(info.band_top, 0, n, r4);
        bitstream::lemma_read_flag(
            true,
            bits::field(
                (n - 1) as nat,
                4,
                bits::field(info.interpolation_scheme as nat, 4, tops),
            ),
        );
        bitstream::lemma_read_field(
            (n - 1) as nat,
            4,
            bits::field(info.interpolation_scheme as nat, 4, tops),
        );
        bitstream::lemma_read_field(info.interpolation_scheme as nat, 4, tops);
        assert forall|b: int| 0 <= b < n implies 4 <= #[trigger] info.band_top[b] <= 1024
            && info.band_top[b] % 4 == 0 by {}
        lemma_tops(info.band_top, n, n, r4);
        assert(info.band_top.take(n) + Seq::new((16 - n) as nat, |b: int| usize::MAX)
            =~= info.band_top);
    } else {
        bitstream::lemma_read_flag(false, r4);
        assert(Seq::new(16, |b: int| usize::MAX) =~= info.band_top);
    }
    match info.reference_level {
        Some(level) => {
            bitstream::lemma_read_flag(
                true,
                bits::field(level as nat, 7, bits::flag(false, r5)),
            );
            bitstream::lemma_read_field(level as nat, 7, bits::flag(false, r5));
            lemma_read_one(false, r5);
        },
        None => {
            bitstream::lemma_read_flag(false, r5);
        },
    }
}

/// A flag is a field of one bit.
proof fn lemma_read_one(b: bool, rest: Seq<bool>)
    ensures
        Cursor::at(bits::flag(b, rest)).read(1).1 == Cursor::at(rest),
{
    reveal(bits::flag);
    reveal(Cursor::read);
    assert((bits::bit(b) + rest).skip(1) =~= rest);
}

/// Gating block length, in milliseconds.
pub const BLOCK_MS: usize = 400;

/// Quarters of a gating block. Blocks overlap by all but one of them.
pub const BLOCK_OVERLAP: usize = 4;

/// What a sample completes.
#[derive(Debug, Clone, Copy, PartialEq, Eq, Structural)]
pub enum Completes {
    Nothing,
    /// A quarter of a gating block, with fewer than three before it.
    Quarter,
    /// A quarter, and with the three before it a gating block.
    Block,
}

/// The schedule of a loudness meter's gating blocks. Blocks overlap by three
/// quarters, so the meter keeps the sums of the last four quarters and adds
/// them up whenever one is complete.
pub struct BlockSchedule {
    step: usize,
    filled: usize,
    seen: usize,
    samples: Ghost<nat>,
}

/// The samples in a quarter of a gating block.
pub open spec fn quarter_len(sample_rate_hz: int) -> int {
    let block = sample_rate_hz * BLOCK_MS / 1000;
    if block / BLOCK_OVERLAP as int >= 1 {
        block / BLOCK_OVERLAP as int
    } else {
        1
    }
}

/// The gating blocks that `n` samples complete.
pub open spec fn blocks_after(n: nat, step: int) -> int {
    if n as int / step >= BLOCK_OVERLAP {
        n as int / step - (BLOCK_OVERLAP - 1)
    } else {
        0
    }
}

impl BlockSchedule {
    /// The number of samples counted so far.
    pub closed spec fn samples(self) -> nat {
        self.samples@
    }

    pub closed spec fn step(self) -> int {
        self.step as int
    }

    #[verifier::type_invariant]
    closed spec fn inv(self) -> bool {
        &&& 1 <= self.step
        &&& self.filled < self.step
        &&& self.samples@ == self.seen * self.step + self.filled
    }

    pub fn new(sample_rate_hz: u32) -> (r: Self)
        ensures
            r.samples() == 0,
            r.step() == quarter_len(sample_rate_hz as int),
    {
        let block: u64 = sample_rate_hz as u64 * BLOCK_MS as u64 / 1000;
        let quarter: u64 = block / BLOCK_OVERLAP as u64;
        let step: usize = if quarter >= 1 {
            quarter as usize
        } else {
            1
        };
        BlockSchedule { step, filled: 0, seen: 0, samples: Ghost(0) }
    }

    /// The samples in a quarter of a gating block.
    pub fn quarter(&self) -> (r: usize)
        ensures
            r == self.step(),
            r >= 1,
    {
        proof {
            use_type_invariant(self);
        }
        self.step
    }

    /// Counts one sample and says what it completes.
    pub fn push(self) -> (r: (Self, Completes))
        requires
            self.samples() < usize::MAX,
        ensures
            r.0.step() == self.step(),
            r.0.samples() == self.samples() + 1,
            r.1 == if r.0.samples() as int % self.step() != 0 {
                Completes::Nothing
            } else if r.0.samples() as int / self.step() < BLOCK_OVERLAP {
                Completes::Quarter
            } else {
                Completes::Block
            },
    {
        proof {
            use_type_invariant(&self);
            lemma_schedule(self.seen as int, self.step as int, self.filled as int);
            assert(self.seen <= self.seen * self.step) by (nonlinear_arith)
                requires
                    1 <= self.step,
            ;
        }
        let ghost next: nat = self.samples@ + 1;
        let filled: usize = self.filled + 1;
        if filled < self.step {
            (
                BlockSchedule { step: self.step, filled, seen: self.seen, samples: Ghost(next) },
                Completes::Nothing,
            )
        } else {
            let seen: usize = self.seen + 1;
            let done: Completes = if seen >= BLOCK_OVERLAP {
                Completes::Block
            } else {
                Completes::Quarter
            };
            (BlockSchedule { step: self.step, filled: 0, seen, samples: Ghost(next) }, done)
        }
    }
}

proof fn lemma_schedule(seen: int, step: int, filled: int)
    requires
        0 <= seen,
        0 <= filled < step,
    ensures
        filled + 1 < step ==> (seen * step + filled + 1) % step == filled + 1,
        filled + 1 == step ==> {
            &&& (seen * step + filled + 1) % step == 0
            &&& (seen * step + filled + 1) / step == seen + 1
            &&& seen * step + filled + 1 == (seen + 1) * step
        },
{
    if filled + 1 < step {
        vstd::arithmetic::div_mod::lemma_fundamental_div_mod_converse(
            seen * step + filled + 1,
            step,
            seen,
            filled + 1,
        );
    } else {
        assert((seen + 1) * step == seen * step + step) by (nonlinear_arith);
        vstd::arithmetic::div_mod::lemma_fundamental_div_mod_converse(
            (seen + 1) * step,
            step,
            seen + 1,
            0,
        );
    }
}

/// A sample completes a gating block just when it makes the number of blocks
/// grow, and it never completes more than one.
pub proof fn law_blocks_are_counted(n: nat, step: int)
    requires
        step >= 1,
    ensures
        blocks_after(n + 1, step) == blocks_after(n, step) + if (n + 1) as int % step == 0 && (n
            + 1) as int / step >= BLOCK_OVERLAP {
            1int
        } else {
            0
        },
{
    let seen = n as int / step;
    let filled = n as int % step;
    vstd::arithmetic::div_mod::lemma_fundamental_div_mod(n as int, step);
    assert(step * seen == seen * step) by (nonlinear_arith);
    assert(0 <= seen) by (nonlinear_arith)
        requires
            seen == n as int / step,
            step >= 1,
    ;
    lemma_schedule(seen, step, filled);
    if filled + 1 < step {
        vstd::arithmetic::div_mod::lemma_fundamental_div_mod_converse(
            n as int + 1,
            step,
            seen,
            filled + 1,
        );
    }
}

/// A quarter of a gating block lasts a tenth of a second, rounded down to
/// samples, and has at least one.
pub proof fn law_quarter_of_a_block(hz: int)
    requires
        hz >= 0,
    ensures
        hz >= 10 ==> 10 * quarter_len(hz) <= hz < 10 * quarter_len(hz) + 10,
        hz < 10 ==> quarter_len(hz) == 1,
{
}

/// Block number `k` is complete as soon as its four quarters are: blocks start
/// a quarter apart.
pub proof fn law_blocks_overlap(n: nat, step: int, k: int)
    requires
        step >= 1,
        k >= 1,
    ensures
        blocks_after(n, step) >= k <==> n >= (k - 1) * step + 4 * step,
{
    let q = n as int / step;
    vstd::arithmetic::div_mod::lemma_fundamental_div_mod(n as int, step);
    assert((k - 1) * step + 4 * step == (k + 3) * step) by (nonlinear_arith);
    if q >= k + 3 {
        assert(n >= (k + 3) * step) by (nonlinear_arith)
            requires
                n == step * q + n as int % step,
                n as int % step >= 0,
                q >= k + 3,
                step >= 1,
        ;
    } else {
        assert(n < (k + 3) * step) by (nonlinear_arith)
            requires
                n == step * q + n as int % step,
                n as int % step < step,
                q <= k + 2,
                step >= 1,
        ;
    }
}

} // verus!
