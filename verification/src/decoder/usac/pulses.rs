//! How the pulses of the innovation are packed into indices.
//!
//! The laws here go the other way round from the decoder: from fields that are
//! packed into an index to the pulses that come out of it, and from a sample of
//! the subframe to the one index that decides it.

use crate::decoder::usac::acelp;
use crate::decoder::usac::acelp::Pulse;
use vstd::arithmetic::div_mod::*;
use vstd::arithmetic::power2::*;
use vstd::prelude::*;

verus! {

/// The fields of a number that has `hi` above `n` bits of `lo`.
proof fn lemma_packed(lo: int, hi: int, n: nat, from: nat, width: nat)
    requires
        0 <= lo < pow2(n),
        0 <= hi,
    ensures
        from + width <= n ==> acelp::part(lo + pow2(n) * hi, from, width) == acelp::part(
            lo,
            from,
            width,
        ),
        acelp::part(lo + pow2(n) * hi, n + from, width) == acelp::part(hi, from, width),
{
    let x = lo + pow2(n) * hi;
    let p = pow2(n) as int;
    lemma_pow2_pos(n);
    vstd::arithmetic::mul::lemma_mul_nonnegative(p, hi);
    lemma_pow2_pos(from);
    lemma_pow2_pos(width);
    lemma_pow2_adds(n, from);
    lemma_div_denominator(x, p, pow2(from) as int);
    assert(x / p == hi) by {
        lemma_hoist_over_denominator(lo, hi, pow2(n));
        lemma_basic_div(lo, p);
        vstd::arithmetic::mul::lemma_mul_is_commutative(p, hi);
    }
    if from + width <= n {
        let above = (n - from - width) as nat;
        lemma_pow2_adds(from, (n - from) as nat);
        lemma_pow2_adds(width, above);
        let rest = pow2(above) as int * hi;
        let f = pow2(from) as int;
        let w = pow2(width) as int;
        assert(p * hi == (w * rest) * f) by (nonlinear_arith)
            requires
                p == f * (w * pow2(above) as int),
                rest == pow2(above) as int * hi,
        ;
        lemma_hoist_over_denominator(lo, w * rest, pow2(from));
        assert(x / f == lo / f + w * rest);
        lemma_mod_multiples_vanish(rest, lo / f, w);
        vstd::arithmetic::mul::lemma_mul_is_commutative(w, rest);
    }
}

proof fn lemma_whole(lo: int, n: nat)
    requires
        0 <= lo < pow2(n),
    ensures
        acelp::part(lo, 0, n) == lo,
{
    lemma2_to64();
    lemma_small_mod(lo as nat, pow2(n));
}

/// A pulse whose position and sign are packed into an index comes out of it.
pub proof fn law_packed_pulse(p: int, down: bool, m: nat, offset: int, track: int)
    requires
        0 <= p < pow2(m),
    ensures
        ({
            let idx = p + pow2(m) * if down { 1int } else { 0 };
            acelp::one(idx, m, offset, track) == seq![
                Pulse { at: 4 * (p + offset) + track, up: !down },
            ]
        }),
{
    let sign = if down { 1int } else { 0 };
    lemma2_to64();
    lemma_packed(p, sign, m, 0, m);
    lemma_packed(p, sign, m, 0, 1);
    lemma_whole(p, m);
    lemma_whole(sign, 1);
    assert(acelp::one(p + pow2(m) * sign, m, offset, track) =~= seq![
        Pulse { at: 4 * (p + offset) + track, up: !down },
    ]);
}

/// The two pulses of a pair have opposite signs if and only if the second one
/// stands before the first.
pub proof fn law_pair_signs(idx: int, m: nat, offset: int, track: int)
    ensures
        ({
            let ps = acelp::two(idx, m, offset, track);
            &&& ps.len() == 2
            &&& ps[1].at < ps[0].at <==> ps[0].up != ps[1].up
        }),
{
}

/// Two positions and the sign of the first, packed into an index, come out of
/// it.
pub proof fn law_packed_pair(p: int, q: int, down: bool, m: nat, offset: int, track: int)
    requires
        0 <= p < pow2(m),
        0 <= q < pow2(m),
    ensures
        ({
            let idx = q + pow2(m) * (p + pow2(m) * if down { 1int } else { 0 });
            let ps = acelp::two(idx, m, offset, track);
            &&& ps.len() == 2
            &&& ps[0] == (Pulse { at: 4 * (p + offset) + track, up: !down })
            &&& ps[1].at == 4 * (q + offset) + track
        }),
{
    let sign = if down { 1int } else { 0 };
    let hi = p + pow2(m) * sign;
    lemma2_to64();
    lemma_packed(q, hi, m, 0, m);
    lemma_packed(q, hi, m, m, 1);
    lemma_packed(q, hi, m, 0, 1);
    lemma_packed(p, sign, m, 0, m);
    lemma_packed(p, sign, m, 0, 1);
    lemma_whole(p, m);
    lemma_whole(q, m);
    lemma_whole(sign, 1);
}

/// Every pair of signed unit pulses on a track has an index, unless they stand
/// in the same place and cancel.
pub proof fn law_every_pair_is_reachable(p: int, up_p: bool, q: int, up_q: bool, m: nat, track: int)
    requires
        0 <= p < pow2(m),
        0 <= q < pow2(m),
        p == q ==> up_p == up_q,
    ensures
        exists|idx: int|
            0 <= idx < 2 * (pow2(m) * pow2(m)) && forall|k: int| #[trigger]
                acelp::amplitude(#[trigger] acelp::two(idx, m, 0, track), k)
                    == (if k != 4 * p + track {
                    0int
                } else if up_p {
                    1
                } else {
                    -1
                }) + (if k != 4 * q + track {
                    0int
                } else if up_q {
                    1
                } else {
                    -1
                }),
{
    // The pulse that stands first is sent second where the signs differ, and
    // first where they are the same.
    let swap = (up_p == up_q) == (q < p);
    let (a, up_a, b) = if swap {
        (q, up_q, p)
    } else {
        (p, up_p, q)
    };
    let sign = if up_a { 0int } else { 1 };
    let idx = b + pow2(m) * (a + pow2(m) * sign);
    law_packed_pair(a, b, !up_a, m, 0, track);
    law_pair_signs(idx, m, 0, track);
    let ps = acelp::two(idx, m, 0, track);
    assert(0 <= idx < 2 * (pow2(m) * pow2(m))) by (nonlinear_arith)
        requires
            0 <= a < pow2(m),
            0 <= b < pow2(m),
            0 <= sign <= 1,
            idx == b + pow2(m) * (a + pow2(m) * sign),
    ;
    assert forall|k: int| #[trigger] acelp::amplitude(ps, k) == (if k != 4 * p + track {
        0int
    } else if up_p {
        1
    } else {
        -1
    }) + (if k != 4 * q + track {
        0int
    } else if up_q {
        1
    } else {
        -1
    }) by {
        reveal_with_fuel(acelp::amplitude, 3);
        assert(ps.drop_last().last() == ps[0]);
        assert(ps.last() == ps[1]);
    }
}

/// A pair, the half it stands in and a single pulse, packed into an index, come
/// out of it.
pub proof fn law_packed_triple(pair: int, upper: bool, single: int, m: nat, offset: int, track: int)
    requires
        m >= 1,
        0 <= pair < pow2((2 * m - 1) as nat),
        0 <= single < pow2(m + 1),
    ensures
        ({
            let idx = pair + pow2((2 * m - 1) as nat) * ((if upper { 1int } else { 0 }) + 2
                * single);
            acelp::three(idx, m, offset, track) == acelp::two(
                pair,
                (m - 1) as nat,
                offset + if upper {
                    pow2((m - 1) as nat) as int
                } else {
                    0
                },
                track,
            ) + acelp::one(single, m, offset, track)
        }),
{
    let half = if upper { 1int } else { 0 };
    let n = (2 * m - 1) as nat;
    let hi = half + 2 * single;
    let idx = pair + pow2(n) * hi;
    lemma2_to64();
    lemma_packed(pair, hi, n, 0, n);
    lemma_packed(pair, hi, n, 0, 1);
    lemma_packed(pair, hi, n, 1, m + 1);
    assert(n + 1 == 2 * m);
    assert(pow2(1) == 2);
    lemma_packed(half, single, 1, 0, 1);
    lemma_packed(half, single, 1, 0, m + 1);
    lemma_whole(pair, n);
    lemma_whole(half, 1);
    lemma_whole(single, m + 1);
}

/// Four pulses in one half of a track: a pair in one quarter of it and a pair
/// anywhere in it.
pub proof fn law_packed_four_and_none(
    first: int,
    upper_quarter: bool,
    second: int,
    upper_half: bool,
    track: int,
)
    requires
        0 <= first < 32,
        0 <= second < 128,
    ensures
        ({
            let quarter = if upper_quarter { 1int } else { 0 };
            let half = if upper_half { 1int } else { 0 };
            acelp::four(first + 32 * quarter + 64 * second + 0x2000 * half, track) == acelp::two(
                first,
                2,
                8 * half + 4 * quarter,
                track,
            ) + acelp::two(second, 3, 8 * half, track)
        }),
{
    let quarter = if upper_quarter { 1int } else { 0 };
    let half = if upper_half { 1int } else { 0 };
    lemma2_to64();
    let a = quarter + 2 * (second + 128 * half);
    let idx = first + 32 * a;
    assert(idx == first + 32 * quarter + 64 * second + 0x2000 * half);
    lemma_packed(first, a, 5, 0, 5);
    lemma_packed(first, a, 5, 0, 1);
    lemma_packed(first, a, 5, 1, 7);
    lemma_packed(first, a, 5, 8, 1);
    lemma_packed(first, a, 5, 9, 2);
    let b = second + 128 * half;
    lemma_packed(quarter, b, 1, 0, 1);
    lemma_packed(quarter, b, 1, 0, 7);
    lemma_packed(quarter, b, 1, 7, 1);
    lemma_packed(quarter, b, 1, 8, 2);
    lemma_packed(second, half, 7, 0, 7);
    lemma_packed(second, half, 7, 0, 1);
    lemma_packed(second, half, 7, 1, 2);
    lemma_whole(first, 5);
    lemma_whole(quarter, 1);
    lemma_whole(second, 7);
    lemma_whole(half, 1);
    assert(acelp::part(half, 1, 2) == 0);
}

/// One pulse in the lower half of a track and three in the upper.
pub proof fn law_packed_one_and_three(single: int, triple: int, track: int)
    requires
        0 <= single < 16,
        0 <= triple < 1024,
    ensures
        acelp::four(triple + 1024 * single + 0x4000, track) == acelp::one(single, 3, 0, track)
            + acelp::three(triple, 3, 8, track),
{
    lemma2_to64();
    let a = single + 16;
    let idx = triple + 1024 * a;
    lemma_packed(triple, a, 10, 0, 4);
    lemma_packed(triple, a, 10, 4, 2);
    lemma_packed(single, 1, 4, 0, 4);
    lemma_packed(single, 1, 4, 0, 2);
    lemma_whole(single, 4);
    lemma_whole(1, 2);
    lemma_same_triple(triple, a, 8, track);
}

/// Two pulses in either half of a track.
pub proof fn law_packed_two_and_two(first: int, second: int, track: int)
    requires
        0 <= first < 128,
        0 <= second < 128,
    ensures
        acelp::four(second + 128 * first + 0x8000, track) == acelp::two(first, 3, 0, track)
            + acelp::two(second, 3, 8, track),
{
    lemma2_to64();
    let a = first + 128 * 2;
    lemma_packed(second, a, 7, 0, 7);
    lemma_packed(second, a, 7, 7, 2);
    lemma_packed(first, 2, 7, 0, 7);
    lemma_packed(first, 2, 7, 0, 2);
    lemma_whole(first, 7);
    lemma_whole(2, 2);
    lemma_same_pair(second, a, 8, track);
}

/// Three pulses in the lower half of a track and one in the upper.
pub proof fn law_packed_three_and_one(triple: int, single: int, track: int)
    requires
        0 <= single < 16,
        0 <= triple < 1024,
    ensures
        acelp::four(single + 16 * triple + 0xc000, track) == acelp::three(triple, 3, 0, track)
            + acelp::one(single, 3, 8, track),
{
    lemma2_to64();
    let a = triple + 1024 * 3;
    lemma_packed(single, a, 4, 0, 10);
    lemma_packed(single, a, 4, 10, 2);
    lemma_packed(triple, 3, 10, 0, 10);
    lemma_packed(triple, 3, 10, 0, 2);
    lemma_whole(triple, 10);
    lemma_whole(3, 2);
    lemma_same_single(single, a, 8, track);
}

proof fn lemma_same_single(single: int, above: int, offset: int, track: int)
    requires
        0 <= single < 16,
        0 <= above,
    ensures
        acelp::one(single + 16 * above, 3, offset, track) == acelp::one(single, 3, offset, track),
{
    lemma2_to64();
    lemma_packed(single, above, 4, 0, 3);
    lemma_packed(single, above, 4, 3, 1);
}

proof fn lemma_same_pair(pair: int, above: int, offset: int, track: int)
    requires
        0 <= pair < 128,
        0 <= above,
    ensures
        acelp::two(pair + 128 * above, 3, offset, track) == acelp::two(pair, 3, offset, track),
{
    lemma2_to64();
    lemma_packed(pair, above, 7, 0, 3);
    lemma_packed(pair, above, 7, 3, 3);
    lemma_packed(pair, above, 7, 6, 1);
}

proof fn lemma_same_triple(triple: int, above: int, offset: int, track: int)
    requires
        0 <= triple < 1024,
        0 <= above,
    ensures
        acelp::three(triple + 1024 * above, 3, offset, track) == acelp::three(
            triple,
            3,
            offset,
            track,
        ),
{
    lemma2_to64();
    lemma_packed(triple, above, 10, 0, 5);
    lemma_packed(triple, above, 10, 5, 1);
    lemma_packed(triple, above, 10, 6, 4);
}

/// The pulses that each track has at a budget from 20 to 52 bits: an index of
/// one pulse takes five bits, of two nine, of three thirteen, and the first two
/// tracks get what the others lack.
pub open spec fn track_pulses(code_bits: int, track: int) -> int {
    if code_bits == 20 {
        1
    } else if code_bits == 28 {
        if track < 2 { 2 } else { 1 }
    } else if code_bits == 36 {
        2
    } else if code_bits == 44 {
        if track < 2 { 3 } else { 2 }
    } else {
        3
    }
}

/// The bits of the indices add up to the budget.
pub proof fn law_track_indices_fill_the_budget(code_bits: int)
    requires
        code_bits == 20 || code_bits == 28 || code_bits == 36 || code_bits == 44 || code_bits == 52,
    ensures
        (4 * track_pulses(code_bits, 0) + 1) + (4 * track_pulses(code_bits, 1) + 1) + (4
            * track_pulses(code_bits, 2) + 1) + (4 * track_pulses(code_bits, 3) + 1) == code_bits,
{
}

/// What stands on a track comes from the index of that track and from no
/// other.
pub proof fn law_tracks_are_independent(ix: Seq<i32>, code_bits: int, track: int, k: int)
    requires
        ix.len() == 8,
        0 <= track < 4,
        k % 4 == track,
    ensures
        code_bits == 20 || code_bits == 28 || code_bits == 36 || code_bits == 44 || code_bits
            == 52 ==> acelp::amplitude(acelp::pulses(ix, code_bits), k) == acelp::amplitude(
            if track_pulses(code_bits, track) == 1 {
                acelp::one(ix[track] as int, 4, 0, track)
            } else if track_pulses(code_bits, track) == 2 {
                acelp::two(ix[track] as int, 4, 0, track)
            } else {
                acelp::three(ix[track] as int, 4, 0, track)
            },
            k,
        ),
        code_bits == 64 ==> acelp::amplitude(acelp::pulses(ix, 64), k) == acelp::amplitude(
            acelp::four(0x4000 * ix[track] + ix[4 + track], track),
            k,
        ),
{
    if code_bits == 64 {
        let a = acelp::four(ix[0] * 0x4000 + ix[4], 0);
        let b = acelp::four(ix[1] * 0x4000 + ix[5], 1);
        let c = acelp::four(ix[2] * 0x4000 + ix[6], 2);
        let d = acelp::four(ix[3] * 0x4000 + ix[7], 3);
        acelp::lemma_four_on_track(ix[0] * 0x4000 + ix[4], 0);
        acelp::lemma_four_on_track(ix[1] * 0x4000 + ix[5], 1);
        acelp::lemma_four_on_track(ix[2] * 0x4000 + ix[6], 2);
        acelp::lemma_four_on_track(ix[3] * 0x4000 + ix[7], 3);
        lemma_one_of_four(a, b, c, d, k);
    } else if code_bits == 20 || code_bits == 28 || code_bits == 36 || code_bits == 44 || code_bits
        == 52 {
        let n0 = track_pulses(code_bits, 0);
        let n1 = track_pulses(code_bits, 1);
        let n2 = track_pulses(code_bits, 2);
        let n3 = track_pulses(code_bits, 3);
        acelp::lemma_group_on_track(n0, ix[0] as int, 0);
        acelp::lemma_group_on_track(n1, ix[1] as int, 1);
        acelp::lemma_group_on_track(n2, ix[2] as int, 2);
        acelp::lemma_group_on_track(n3, ix[3] as int, 3);
        lemma_one_of_four(
            acelp::group(n0, ix[0] as int, 0),
            acelp::group(n1, ix[1] as int, 1),
            acelp::group(n2, ix[2] as int, 2),
            acelp::group(n3, ix[3] as int, 3),
            k,
        );
    }
}

proof fn lemma_one_of_four(a: Seq<Pulse>, b: Seq<Pulse>, c: Seq<Pulse>, d: Seq<Pulse>, k: int)
    requires
        acelp::on_track(a, 0),
        acelp::on_track(b, 1),
        acelp::on_track(c, 2),
        acelp::on_track(d, 3),
    ensures
        acelp::amplitude(a + b + c + d, k) == acelp::amplitude(
            if k % 4 == 0 {
                a
            } else if k % 4 == 1 {
                b
            } else if k % 4 == 2 {
                c
            } else {
                d
            },
            k,
        ),
{
    acelp::lemma_amplitude_on_track(a, 0, k);
    acelp::lemma_amplitude_on_track(b, 1, k);
    acelp::lemma_amplitude_on_track(c, 2, k);
    acelp::lemma_amplitude_on_track(d, 3, k);
    acelp::lemma_amplitude_concat(a, b, k);
    acelp::lemma_amplitude_concat(a + b, c, k);
    acelp::lemma_amplitude_concat(a + b + c, d, k);
}

/// At the two smallest budgets single pulses stand on chosen tracks: at 12 bits
/// one on an even and one on an odd track, at 16 bits one on each but the
/// second or the last.
pub proof fn law_sparse_tracks(ix: Seq<i32>)
    requires
        ix.len() == 8,
    ensures
        acelp::pulses(ix, 12) == acelp::one(ix[1] as int, 4, 0, 2 * ix[0]) + acelp::one(
            ix[3] as int,
            4,
            0,
            2 * ix[2] + 1,
        ),
        forall|j: int|
            0 <= j < 3 ==> #[trigger] acelp::pulses(ix, 16)[j] == acelp::one(
                ix[j + 1] as int,
                4,
                0,
                if ix[0] != 0 || j == 0 {
                    j
                } else {
                    j + 1
                },
            )[0],
{
}

} // verus!
