//! What scaling does to the lines of a block.

use crate::decoder::usac::arith;
use crate::decoder::usac::fd;
use crate::decoder::usac::fd::{FdBlock, Scale};
use crate::dsp::math;
use vstd::arithmetic::div_mod::*;
use vstd::arithmetic::mul::*;
use vstd::prelude::*;

verus! {

/// The factor of `e` octaves and `k` quarter steps above unit gain is the
/// product of the table's entries for both. Below unit gain there is none, and
/// above the last octave the octave stays the last.
pub proof fn law_factor_of_a_step(scale: Scale, e: int, k: int)
    requires
        0 <= k < 4,
    ensures
        0 <= e < 32 ==> scale.factor(100 + 4 * e + k) == (scale.frac[3 + k] * scale.exp[e])
            / 0x8000,
        e >= 32 ==> scale.factor(100 + 4 * e + k) == scale.factor(100 + 4 * 31 + k),
        e < 0 ==> scale.factor(100 + 4 * e + k) == 0,
{
}

/// Tables of an exponential: the quarter steps ascend, and not beyond twice
/// the first, and each octave doubles.
pub open spec fn is_exponential(scale: Scale) -> bool {
    &&& scale.frac[3] <= scale.frac[4] <= scale.frac[5] <= scale.frac[6] <= 2 * scale.frac[3]
    &&& forall|i: int, j: int|
        0 <= i < 31 && j == i + 1 ==> #[trigger] scale.exp[j] == 2 * #[trigger] scale.exp[i]
}

/// One step up never lowers the factor.
proof fn lemma_step_up(scale: Scale, sf: int)
    requires
        scale.is_valid(),
        is_exponential(scale),
        sf + 1 < 100 + 128,
    ensures
        scale.factor(sf) <= scale.factor(sf + 1),
{
    let steps = sf - 100;
    if steps < 0 {
        let f = scale.frac[3] as int;
        let e = scale.exp[0] as int;
        assert(scale.frac[3] >= 0 && scale.exp[0] >= 0);
        lemma_mul_nonnegative(f, e);
    } else {
        let e = steps / 4;
        let k = steps % 4;
        let low = scale.exp[e] as int;
        assert(scale.exp[e] >= 0);
        let a = scale.frac[3 + k] as int;
        if k < 3 {
            let b = scale.frac[4 + k] as int;
            lemma_mul_inequality(a, b, low);
            lemma_div_is_ordered(a * low, b * low, 0x8000);
        } else {
            let b = scale.frac[3] as int;
            let high = scale.exp[e + 1] as int;
            assert(high == 2 * low);
            assert(b * high == (2 * b) * low) by (nonlinear_arith)
                requires
                    high == 2 * low,
            ;
            lemma_mul_inequality(a, 2 * b, low);
            lemma_div_is_ordered(a * low, b * high, 0x8000);
        }
    }
}

/// A larger scalefactor never has a smaller factor.
pub proof fn law_factor_grows(scale: Scale, a: int, b: int)
    requires
        scale.is_valid(),
        is_exponential(scale),
        a <= b < 100 + 128,
    ensures
        scale.factor(a) <= scale.factor(b),
    decreases b - a,
{
    if a < b {
        law_factor_grows(scale, a, b - 1);
        lemma_step_up(scale, b - 1);
    }
}

/// Four steps double the factor, to within what is cut off below the last bit.
pub proof fn law_four_steps_double(scale: Scale, sf: int)
    requires
        scale.is_valid(),
        is_exponential(scale),
        100 <= sf < 100 + 124,
    ensures
        2 * scale.factor(sf) <= scale.factor(sf + 4) <= 2 * scale.factor(sf) + 1,
{
    let e = (sf - 100) / 4;
    let k = (sf - 100) % 4;
    assert((sf + 4 - 100) / 4 == e + 1 && (sf + 4 - 100) % 4 == k);
    let f = scale.frac[3 + k] as int;
    let low = scale.exp[e] as int;
    let high = scale.exp[e + 1] as int;
    assert(high == 2 * low);
    assert(f * high == 2 * (f * low)) by (nonlinear_arith)
        requires
            high == 2 * low,
    ;
}

/// Lines below 1024 are read off the table. From there on they lie on the
/// straight line between two entries of it, for an eighth of the magnitude, and
/// are sixteen times as large. Nothing is larger than 8191.
pub proof fn law_linear_values(pow: Seq<i32>, j: int, r: int, q: i32)
    requires
        0 <= r < 8,
        128 <= j < 1024,
        q > i32::MIN,
    ensures
        0 <= q < 1024 ==> arith::linear_value(pow, q) == pow[q as int],
        arith::linear_value(pow, (8 * j + r) as i32) == 2 * ((8 - r) * pow[j] + r * pow[j + 1]),
        q > 8191 ==> arith::linear_value(pow, q) == arith::linear_value(pow, 8191),
        q != 0 ==> arith::linear_value(pow, (-q) as i32) == -arith::linear_value(pow, q),
{
    let m = 8 * j + r;
    assert(m / 8 == j && m % 8 == r);
    let a = pow[j] as int;
    let b = pow[j + 1] as int;
    assert(((b - a) * r + a * 8) * 2 == 2 * ((8 - r) * a + r * b)) by (nonlinear_arith);
}

/// A louder line never comes out quieter.
pub proof fn law_louder_lines(pow: Seq<i32>, p: i32, q: i32)
    requires
        arith::is_pow_table(pow),
        forall|i: int, j: int| 0 <= i <= j < pow.len() ==> #[trigger] pow[i] <= #[trigger] pow[j],
        pow[1023] <= 16 * pow[128],
        0 <= p <= q,
    ensures
        0 <= arith::linear_value(pow, p) <= arith::linear_value(pow, q),
    decreases q - p,
{
    assert(pow[0] >= 0);
    if p == q {
        if p < 1024 {
            assert(pow[p as int] >= 0);
        } else {
            let m = if p < 8191 { p as int } else { 8191 };
            let (j, r) = (m / 8, m % 8);
            law_linear_values(pow, j, r, p);
            assert(pow[j] >= 0 && pow[j + 1] >= 0);
            lemma_mul_nonnegative(8 - r, pow[j] as int);
            lemma_mul_nonnegative(r, pow[j + 1] as int);
        }
    } else {
        law_louder_lines(pow, p, (q - 1) as i32);
        lemma_next_line(pow, (q - 1) as i32);
    }
}

proof fn lemma_next_line(pow: Seq<i32>, p: i32)
    requires
        arith::is_pow_table(pow),
        forall|i: int, j: int| 0 <= i <= j < pow.len() ==> #[trigger] pow[i] <= #[trigger] pow[j],
        pow[1023] <= 16 * pow[128],
        0 <= p < i32::MAX,
    ensures
        arith::linear_value(pow, p) <= arith::linear_value(pow, (p + 1) as i32),
{
    if p < 1023 {
        assert(pow[p as int] <= pow[p + 1]);
    } else if p == 1023 {
        law_linear_values(pow, 128, 0, p);
    } else if p < 8191 {
        let (j, r) = (p as int / 8, p as int % 8);
        law_linear_values(pow, j, r, p);
        let a = pow[j] as int;
        let b = pow[j + 1] as int;
        assert(pow[j] <= pow[j + 1]);
        if r < 7 {
            law_linear_values(pow, j, r + 1, p);
            assert(8 * j + (r + 1) == p + 1);
            assert((8 - r) * a + r * b <= (8 - (r + 1)) * a + (r + 1) * b) by (nonlinear_arith)
                requires
                    a <= b,
            ;
        } else {
            law_linear_values(pow, j + 1, 0, p);
            assert(8 * (j + 1) + 0 == p + 1);
            assert(r == 7);
            assert((8 - r) * a + r * b <= 8 * b) by (nonlinear_arith)
                requires
                    a <= b,
                    r == 7,
            ;
        }
    }
}

/// A line that is not filled is its linear value times the factor, in units of
/// `2^-22` and rounded down, where that fits in 32 bits.
pub proof fn law_scaled_line(
    pow: Seq<i32>,
    quant: Seq<i32>,
    noise: int,
    seed: int,
    fac_fix: int,
    i: int,
)
    requires
        0 <= i < quant.len(),
        -0x8000_0000 * 0x40_0000 <= fac_fix * arith::linear_value(pow, quant[i]) < 0x8000_0000
            * 0x40_0000,
    ensures
        ({
            let c = arith::linear_coefficient(pow, quant, noise, false, seed, fac_fix, i);
            0x40_0000 * c <= fac_fix * arith::linear_value(pow, quant[i]) < 0x40_0000 * (c + 1)
        }),
{
    math::law_wrapping((fac_fix * arith::linear_value(pow, quant[i])) / 0x40_0000);
}

/// A line that is filled is the noise level times the factor, up or down, in
/// units of `2^-25` and rounded down, where that fits in 32 bits. It points down
/// if bit 16 of the noise generator is set once it has advanced past the line.
pub proof fn law_filled_line(
    pow: Seq<i32>,
    quant: Seq<i32>,
    noise: int,
    seed: int,
    fac_fix: int,
    i: int,
)
    requires
        0 <= i < quant.len(),
        quant[i] == 0,
        -0x8000_0000 * 0x200_0000 < fac_fix * noise < 0x8000_0000 * 0x200_0000,
    ensures
        ({
            let c = arith::linear_coefficient(pow, quant, noise, true, seed, fac_fix, i);
            let down = (arith::seed_after(quant, true, seed, (i + 1) as nat) / 0x1_0000) % 2 == 1;
            let v = if down { -(fac_fix * noise) } else { fac_fix * noise };
            0x200_0000 * c <= v < 0x200_0000 * (c + 1)
        }),
{
    let s = arith::seed_sign(arith::seed_after(quant, true, seed, (i + 1) as nat));
    assert(fac_fix * (s * noise) == s * (fac_fix * noise)) by (nonlinear_arith);
    assert(s == 1 || s == -1);
    assert(s == -1 ==> s * (fac_fix * noise) == -(fac_fix * noise)) by (nonlinear_arith);
    assert(s == 1 ==> s * (fac_fix * noise) == fac_fix * noise) by (nonlinear_arith);
    math::law_wrapping((fac_fix * (s * noise)) / 0x200_0000);
}

/// The noise generator advances once for each zero that is filled, and at no
/// other line.
pub proof fn law_noise_generator_steps(quant: Seq<i32>, seed: int, k: nat)
    requires
        k < quant.len(),
    ensures
        quant[k as int] != 0 ==> arith::seed_after(quant, true, seed, k + 1) == arith::seed_after(
            quant,
            true,
            seed,
            k,
        ),
        quant[k as int] == 0 ==> arith::seed_after(quant, true, seed, k + 1) == (arith::seed_after(
            quant,
            true,
            seed,
            k,
        ) * 69069 + 5) % 0x1_0000_0000,
        arith::seed_after(quant, true, seed, 0) == seed,
{
}

/// A band is filled with noise if and only if the block has a noise level, the
/// band starts at line 160 or above, has a line, and has no line that is not
/// zero. Then, and only then, the noise offset moves its scalefactor, by as many
/// steps as it is above sixteen.
pub proof fn law_filled_bands(offsets: Seq<usize>, block: FdBlock, b: int)
    requires
        0 <= b,
        b + 1 < offsets.len(),
    ensures
        ({
            let lo = offsets[b] as int;
            let hi = fd::band_end(offsets, block.quant@, b);
            let filled = fd::is_filled(offsets, block, b);
            let sf = block.header.scalefactors@[b];
            &&& filled ==> block.header.noise_level > 0 && lo >= 160 && lo < hi
            &&& filled ==> forall|i: int| lo <= i < hi ==> #[trigger] block.quant@[i] == 0
            &&& block.header.noise_level > 0 && lo >= 160 && lo < hi && !filled ==> exists|i: int|
                lo <= i < hi && #[trigger] block.quant@[i] != 0
            &&& filled ==> fd::band_scalefactor(offsets, block, b) == sf
                + block.header.noise_offset - 16
            &&& !filled ==> fd::band_scalefactor(offsets, block, b) == sf
        }),
{
}

proof fn lemma_quiet_generator(quant: Seq<i32>, seed: int, k: nat)
    ensures
        arith::seed_after(quant, false, seed, k) == seed,
    decreases k,
{
    if k > 0 {
        lemma_quiet_generator(quant, seed, (k - 1) as nat);
    }
}

/// The noise generator runs on from band to band: a band that is filled
/// advances it by its lines, any other leaves it.
pub proof fn law_generator_runs_on(offsets: Seq<usize>, block: FdBlock, seed: int, b: int)
    requires
        0 <= b,
        b + 1 < offsets.len(),
    ensures
        fd::band_seed(offsets, block, seed, 0) == seed,
        !fd::is_filled(offsets, block, b) ==> fd::band_seed(offsets, block, seed, b + 1)
            == fd::band_seed(offsets, block, seed, b),
        fd::is_filled(offsets, block, b) ==> fd::band_seed(offsets, block, seed, b + 1)
            == arith::seed_after(
            block.quant@.subrange(offsets[b] as int, fd::band_end(offsets, block.quant@, b)),
            true,
            fd::band_seed(offsets, block, seed, b),
            (fd::band_end(offsets, block.quant@, b) - offsets[b]) as nat,
        ),
{
    let lines = fd::band_lines(offsets, block.quant@, b);
    lemma_quiet_generator(lines, fd::band_seed(offsets, block, seed, b), lines.len());
}

/// A band ends where the table says, or with the spectrum.
pub proof fn law_end_of_a_band(offsets: Seq<usize>, quant: Seq<i32>, b: int)
    requires
        0 <= b,
        b + 1 < offsets.len(),
    ensures
        fd::band_end(offsets, quant, b) <= offsets[b + 1],
        fd::band_end(offsets, quant, b) <= quant.len(),
        fd::band_end(offsets, quant, b) == offsets[b + 1] || fd::band_end(offsets, quant, b)
            == quant.len(),
{
}

/// A line of a block is scaled with the factor of its own band.
pub proof fn law_line_of_a_block(
    scale: Scale,
    offsets: Seq<usize>,
    block: FdBlock,
    seed: int,
    b: int,
    i: int,
)
    requires
        0 <= b,
        b + 1 < offsets.len(),
        offsets[b] <= i < fd::band_end(offsets, block.quant@, b),
        !fd::is_filled(offsets, block, b),
        ({
            let x = scale.factor(block.header.scalefactors@[b] as int) * arith::linear_value(
                scale.pow,
                block.quant@[i],
            );
            -0x8000_0000 * 0x40_0000 <= x < 0x8000_0000 * 0x40_0000
        }),
    ensures
        ({
            let x = scale.factor(block.header.scalefactors@[b] as int) * arith::linear_value(
                scale.pow,
                block.quant@[i],
            );
            let c = fd::band_coefficient(scale, offsets, block, seed, b, i);
            0x40_0000 * c <= x < 0x40_0000 * (c + 1)
        }),
{
    let lines = fd::band_lines(offsets, block.quant@, b);
    let at = i - offsets[b];
    assert(lines[at] == block.quant@[i]);
    law_scaled_line(
        scale.pow,
        lines,
        scale.noise[block.header.noise_level as int] as int,
        fd::band_seed(offsets, block, seed, b),
        scale.factor(fd::band_scalefactor(offsets, block, b)),
        at,
    );
    let x = scale.factor(block.header.scalefactors@[b] as int) * arith::linear_value(
        scale.pow,
        block.quant@[i],
    );
    math::law_wrapping(x / 0x40_0000);
}

/// A scaled line that does not fit in 32 bits keeps the low ones.
pub proof fn law_scaled_lines_wrap(
    pow: Seq<i32>,
    quant: Seq<i32>,
    noise: int,
    seed: int,
    fac_fix: int,
    i: int,
)
    requires
        0 <= i < quant.len(),
    ensures
        ({
            let c = arith::linear_coefficient(pow, quant, noise, false, seed, fac_fix, i);
            let x = (fac_fix * arith::linear_value(pow, quant[i])) / 0x40_0000;
            i32::MIN <= c <= i32::MAX && (x - c) % 0x1_0000_0000 == 0
        }),
        ({
            let c = arith::linear_coefficient(pow, quant, noise, true, seed, fac_fix, i);
            let down = (arith::seed_after(quant, true, seed, (i + 1) as nat) / 0x1_0000) % 2 == 1;
            let v = if down { -(fac_fix * noise) } else { fac_fix * noise };
            quant[i] == 0 ==> i32::MIN <= c <= i32::MAX && (v / 0x200_0000 - c) % 0x1_0000_0000 == 0
        }),
{
    math::law_wrapping((fac_fix * arith::linear_value(pow, quant[i])) / 0x40_0000);
    let s = arith::seed_sign(arith::seed_after(quant, true, seed, (i + 1) as nat));
    assert(fac_fix * (s * noise) == s * (fac_fix * noise)) by (nonlinear_arith);
    assert(s == 1 || s == -1);
    assert(s == -1 ==> s * (fac_fix * noise) == -(fac_fix * noise)) by (nonlinear_arith);
    assert(s == 1 ==> s * (fac_fix * noise) == fac_fix * noise) by (nonlinear_arith);
    math::law_wrapping((fac_fix * (s * noise)) / 0x200_0000);
}

/// Values end at 8191: anything larger is as large as that. A value and its
/// opposite have opposite linear values.
pub proof fn law_linear_values_end(pow: Seq<i32>, q: i32)
    requires
        q > i32::MIN,
    ensures
        q >= 8191 ==> arith::linear_value(pow, q) == arith::linear_value(pow, 8191),
        q > 0 ==> arith::linear_value(pow, (-q) as i32) == -arith::linear_value(pow, q),
        0 <= q < 1024 ==> arith::linear_value(pow, q) == pow[q as int],
{
}

} // verus!
