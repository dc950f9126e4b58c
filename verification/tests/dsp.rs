//! Fixed-point arithmetic and the integer side of the transforms.

use vuiocodecaac::dsp::fft::{digit_reverse, stage_radices, FftPlan};
use vuiocodecaac::dsp::filterbank::short_window_offset;
use vuiocodecaac::dsp::math::{
    abs32_sat, add32_sat, div32, div32_pos_normb, mul32_sh, mult16x16in32_shl_sat, mult32_shl_sat,
    mult32x16in32_shl_sat, negate32_sat, norm32, shl32_dir_sat, shl32_sat, sub32_sat, MAX_32,
    MIN_16, MIN_32,
};
use vuiocodecaac::dsp::peak_limiter::{DelayLine, PeakWindow};
use vuiocodecaac::dsp::qmf::{SlotRing, SynthesisWidth};

#[test]
fn test_saturating_arithmetic() {
    assert_eq!(add32_sat(MAX_32, 1), MAX_32);
    assert_eq!(add32_sat(MIN_32, -1), MIN_32);
    assert_eq!(sub32_sat(MIN_32, 1), MIN_32);
    assert_eq!(sub32_sat(MAX_32, -1), MAX_32);
}

#[test]
fn test_fractional_multiplication() {
    assert_eq!(mult32x16in32_shl_sat(MIN_32, MIN_16), MAX_32);
    assert_eq!(mult32_shl_sat(MIN_32, MIN_32), MAX_32);
    assert_eq!(mult16x16in32_shl_sat(MIN_16, MIN_16), MAX_32);
}

#[test]
fn test_normalization() {
    assert_eq!(norm32(0), 31);
    assert_eq!(norm32(-1), 31);
    assert_eq!(norm32(0x4000_0000), 0);
    assert_eq!(norm32(0x2000_0000), 1);
    assert_eq!(norm32(1), 30);
}

#[test]
fn test_div32_pos_normb() {
    assert_eq!(div32_pos_normb(100, 100), MAX_32);
    let q = div32_pos_normb(50, 100);
    // 50/100 = 0.5 in Q31 = 0x4000_0000 = 1073741824
    assert_eq!(q, 0x4000_0000);
}

#[test]
fn shifts_saturate() {
    assert_eq!(shl32_sat(1, 31), MAX_32);
    assert_eq!(shl32_sat(-1, 31), MIN_32);
    assert_eq!(shl32_sat(3, 4), 48);
    assert_eq!(shl32_dir_sat(48, -4), 3);
    assert_eq!(abs32_sat(MIN_32), MAX_32);
    assert_eq!(negate32_sat(MIN_32), MAX_32);
    assert_eq!(mul32_sh(1 << 20, 1 << 20, 10), 1 << 30);
}

#[test]
fn a_quotient_has_its_own_format() {
    let mut q = 0;
    let a = div32(1 << 20, 1 << 22, &mut q);
    let value = a as f64 / 2f64.powi(q);
    assert!((value - 0.25).abs() < 1e-6, "{a} in Q{q}");
}

/// The permutation must be a genuine permutation of `0..n`.
#[test]
fn permutation_is_a_bijection() {
    for &n in &[2usize, 8, 32, 128, 512, 1024] {
        let p = digit_reverse(n);
        assert_eq!(p.len(), n);
        let mut seen = vec![false; n];
        for &i in &p {
            assert!(!seen[i as usize], "n={n}: index {i} appears twice");
            seen[i as usize] = true;
        }
    }
}

/// The stage radices must multiply back to the transform length.
#[test]
fn stage_radices_factor_the_length() {
    for &n in &[2usize, 4, 8, 64, 512, 1024] {
        let product: usize = stage_radices(n).iter().product();
        assert_eq!(product, n, "radices for {n} do not multiply to it");
    }
}

#[test]
fn a_plan_holds_its_permutation_and_stages() {
    let plan = FftPlan::new(8);
    assert_eq!(plan.length(), 8);
    assert_eq!(plan.permutation().len(), 8);
    assert_eq!(plan.stages().len(), stage_radices(8).len());
}

#[test]
fn short_windows_lie_inside_the_frame() {
    assert_eq!(short_window_offset(1024, 0), 448);
    for w in 0..8 {
        let at = short_window_offset(1024, w);
        assert!(at + 256 <= 2048);
    }
    assert_eq!(short_window_offset(1024, 7) - short_window_offset(1024, 6), 128);
}

#[test]
fn the_window_maximum_matches_a_search() {
    let len = 7;
    let mut window = PeakWindow::new(len);
    let mut seed = 42u32;
    let mut all: Vec<u32> = Vec::new();
    for _ in 0..200 {
        seed ^= seed << 13;
        seed ^= seed >> 17;
        seed ^= seed << 5;
        let x = seed % 1000;
        all.push(x);
        let from = all.len().saturating_sub(len);
        let want = *all[from..].iter().max().unwrap();
        assert_eq!(window.push(x), want);
    }
}

#[test]
fn a_delay_line_hands_back_what_went_in_before() {
    let mut line = DelayLine::new(0i32, 5);
    let out: Vec<i32> = (1..=12).map(|x| line.push(x)).collect();
    assert_eq!(out, vec![0, 0, 0, 0, 0, 1, 2, 3, 4, 5, 6, 7]);
}

#[test]
fn the_newest_slot_stands_first() {
    assert_eq!(SynthesisWidth::Full.bands(), 64);
    let mut ring = SlotRing::new(0i32, 2, 3);
    ring.push(&[1, 2]);
    ring.push(&[3, 4]);
    let window = ring.window();
    assert_eq!(window.len(), 6);
    assert_eq!(&window[..4], &[3, 4, 1, 2]);
    ring.reset(0);
    assert!(ring.window().iter().all(|x| *x == 0));
}

/// On 16-bit numbers in upper halves all saturating multiplications agree.
#[test]
fn saturating_multiplications_agree() {
    for a in [i16::MIN, -12_345, -1, 0, 1, 77, i16::MAX] {
        for b in [i16::MIN, -999, -1, 0, 1, 16_384, i16::MAX] {
            let want = mult16x16in32_shl_sat(a, b);
            let (high_a, high_b) = ((a as i32) << 16, (b as i32) << 16);
            assert_eq!(mult32x16in32_shl_sat(high_a, b), want, "{a} {b}");
            assert_eq!(
                vuiocodecaac::dsp::math::mult32x16h_in32_shl_sat(high_a, high_b),
                want,
                "{a} {b}"
            );
            assert_eq!(mult32_shl_sat(high_a, high_b), want, "{a} {b}");
        }
    }
}
