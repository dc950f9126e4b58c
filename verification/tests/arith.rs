//! The arithmetic coder, scaling and the frequency domain path.
//!
//! The models and codes here are made up: any valid ones do.

use vuiocodecaac::bitstream::{BitReader, BitWriter};
use vuiocodecaac::decoder::usac::arith::{
    decode_pairs, dequantize, linear, random_sign, try_decode_pairs,
};
use vuiocodecaac::decoder::usac::fd::{
    block_has_shape, channel_fits, decode_block, decode_stereo_block, dequantize_channel, read_channel_header,
    read_scale_factor_data, ChannelHeader, FdBlock, ScaleTables,
};
use vuiocodecaac::encoder::aac::huffman::{codebook, EncodeTables, Rom};
use vuiocodecaac::encoder::aac::quant::SF_OFFSET;
use vuiocodecaac::encoder::usac::arith::encode_pairs;
use vuiocodecaac::encoder::usac::fd::{
    encode_frame, encode_stereo_frame, noise_bands, noise_parameters, settle_scalefactors,
    trial_cost, write_channel_header, write_scale_factor_data, FdChannel, FdLayout, FRAME_LEN,
    NOISE_FILLING_START_OFFSET,
};
use vuiocodecaac::encoder::usac::tns::{filter_band_range, freq_to_band, TnsFilter};
use vuiocodecaac::error::{DecodeError, Error};
use vuiocodecaac::tables::usac_arith::{ArithTables, Contexts, NUM_CONTEXTS};

fn model() -> ArithTables {
    let mut symbols = Vec::new();
    for step in [500u16, 900, 1000] {
        let mut cf = [0u16; 17];
        for (i, c) in cf.iter_mut().enumerate() {
            *c = (16 - i as u16) * step;
        }
        symbols.push(cf);
    }
    let rows: Vec<u8> = (0..NUM_CONTEXTS).map(|c| (c % 3) as u8).collect();
    let planes = [[12_288, 8192, 4096, 0], [12_000, 7000, 3000, 0], [9000, 6000, 3000, 0]];
    ArithTables::new(rows, symbols, planes).unwrap()
}

fn complete_code(n: usize) -> Rom {
    let mut k = 0;
    while (2usize << k) <= n {
        k += 1;
    }
    let short = (2usize << k) - n;
    let mut input_table = vec![0u16];
    for i in 0..n {
        let len = if i < short { k } else { k + 1 };
        input_table.push(((i as u16) << 5) | len as u16);
    }
    let mut idx_table = vec![(((short - 1) as u32) << 20) | (short as u32 - 1)];
    if short < n {
        let last = 2 * short + (n - short) - 1;
        idx_table.push((((n - 1) as u32) << 20) | last as u32);
    }
    Rom { input_table, idx_table, wide_offset: n > 256 }
}

fn codes() -> EncodeTables {
    let books: Vec<Rom> = (1..=11u8)
        .map(|cb| {
            let book = codebook(cb).unwrap();
            complete_code((book.huff_mode as usize).pow(book.dim as u32))
        })
        .collect();
    EncodeTables::new(&books, &complete_code(121))
}

fn pow_table() -> Vec<i32> {
    (0..1025).map(|x| ((x as f64).powf(4.0 / 3.0) * 8192.0).round() as i32).collect()
}

fn round_trip(quant: &[i32]) -> Vec<i32> {
    let t = model();
    let n = quant.len() / 2;
    let mut writer = BitWriter::with_capacity(256);
    let mut enc_ctx = Contexts::new();
    encode_pairs(&mut writer, &mut enc_ctx, &t, quant, n, n);
    writer.byte_align_zero();
    let bytes = writer.into_bytes();

    let mut reader = BitReader::new(&bytes);
    let mut dec_ctx = Contexts::new();
    let mut out = vec![0i32; 2 * n];
    decode_pairs(&mut reader, &mut dec_ctx, &t, n, n, &mut out);
    out
}

#[test]
fn all_zero_round_trips() {
    let quant = vec![0i32; 16];
    assert_eq!(round_trip(&quant), quant);
}

#[test]
fn small_magnitudes_round_trip_without_escaping() {
    // Every |value| here is <= 3, so no coefficient forces the escape path.
    let quant = vec![1, -2, 0, 3, -1, 1, 2, -3, 0, 0, -3, -3, 3, 3, 1, -1];
    assert_eq!(round_trip(&quant), quant);
}

#[test]
fn large_magnitudes_force_escape_coding() {
    let quant = vec![120, -85, 4000, -4000, 8191, -8191, 500, -1, 0, 0, 7, -7, 63, -63, 9, -9];
    assert_eq!(round_trip(&quant), quant);
}

#[test]
fn context_carries_across_successive_blocks() {
    // A second block must decode correctly against the context left behind
    // by the first, not a freshly reset one -- this is what actually
    // exercises `prev` (as opposed to a single round trip, where `prev`
    // stays all-zero throughout).
    let t = model();
    let first = vec![5, -5, 6, -6, 0, 0, 2, -2];
    let second = vec![1, -1, 0, 0, 9, -9, 3, -3];
    let n = first.len() / 2;

    let mut writer = BitWriter::with_capacity(256);
    let mut enc_ctx = Contexts::new();
    encode_pairs(&mut writer, &mut enc_ctx, &t, &first, n, n);
    encode_pairs(&mut writer, &mut enc_ctx, &t, &second, n, n);
    writer.byte_align_zero();
    let bytes = writer.into_bytes();

    let mut reader = BitReader::new(&bytes);
    let mut dec_ctx = Contexts::new();
    let mut out1 = vec![0i32; 2 * n];
    let mut out2 = vec![0i32; 2 * n];
    decode_pairs(&mut reader, &mut dec_ctx, &t, n, n, &mut out1);
    decode_pairs(&mut reader, &mut dec_ctx, &t, n, n, &mut out2);

    assert_eq!(out1, first);
    assert_eq!(out2, second);
}

/// The very first context, before any history exists, must be exactly
/// `c_prev[0] << 12` folded through the mask and the addition.
#[test]
fn first_context_matches_a_hand_trace() {
    let contexts = Contexts::new();
    let mut state = (contexts.prev(0) as u32) << 12;
    // i = 0: tmp = prev(1) = 0; c = (state>>4) + 0 = 0; c = (0 & 0xFFF0) + pres(-1) = 0.
    let c0 = contexts.get_context(0, &mut state);
    assert_eq!(c0, 0);
    assert_eq!(state, 0);
}

#[test]
fn unit_scale_dequantizes_to_the_pow_table_directly() {
    // fac_fix = 1<<22 makes dequantize's final >>22 a no-op, isolating the
    // magnitude curve from the scalefactor math.
    let pow = pow_table();
    let quant = [0, 1, -1, 100];
    let mut coef = [0i32; 4];
    let mut seed = 1u32;
    dequantize(&pow, &quant, &mut coef, 0, false, &mut seed, 1 << 22);
    assert_eq!(coef[0], 0);
    assert_eq!(coef[1], pow[1]);
    assert_eq!(coef[2], -pow[1]);
    assert_eq!(coef[3], pow[100]);
}

#[test]
fn noise_filling_only_touches_zero_positions() {
    let pow = pow_table();
    let quant = [0, 5, 0, -3];
    let mut coef = [0i32; 4];
    let mut seed = 42u32;
    dequantize(&pow, &quant, &mut coef, 1000, true, &mut seed, 1 << 22);
    assert_ne!(coef[0], 0, "a noise-filled position must not stay silent");
    assert_eq!(coef[1], pow[5]);
    assert_ne!(coef[2], 0);
    assert_eq!(coef[3], -pow[3]);
}

#[test]
fn random_sign_matches_the_reference_recurrence() {
    let mut seed = 0u32;
    let s1 = random_sign(&mut seed);
    assert_eq!(seed, 5);
    assert_eq!(s1, 1);
    let s2 = random_sign(&mut seed);
    assert_eq!(seed, 5u32.wrapping_mul(69069).wrapping_add(5));
    assert!(s2 == 1 || s2 == -1);
}

/// Escape planes must be replayed most-significant-bit-first even though
/// they were peeled off least-significant-bit-first — get this backwards
/// and small values still round-trip (they never escape) while anything
/// past magnitude 3 silently corrupts.
#[test]
fn escape_plane_order_reconstructs_large_magnitudes() {
    let t = model();
    let quant = vec![8191, -8191, 4096, -4096];
    let n = quant.len() / 2;
    let mut writer = BitWriter::with_capacity(64);
    let mut ctx = Contexts::new();
    encode_pairs(&mut writer, &mut ctx, &t, &quant, n, n);
    writer.byte_align_zero();
    let bytes = writer.into_bytes();

    let mut reader = BitReader::new(&bytes);
    let mut dec_ctx = Contexts::new();
    let mut out = vec![0i32; 2 * n];
    decode_pairs(&mut reader, &mut dec_ctx, &t, n, n, &mut out);
    assert_eq!(out, quant);
}

#[test]
fn a_block_beyond_the_end_of_the_stream_is_reported() {
    let t = model();
    let bytes: [u8; 0] = [];
    let mut reader = BitReader::new(&bytes);
    let mut contexts = Contexts::new();
    let mut out = vec![7i32; 1024];
    let r = try_decode_pairs(&mut reader, &mut contexts, &t, 512, 512, &mut out);
    assert!(matches!(r, Err(Error::Decode(DecodeError::UsacError(_)))));
    assert!(out.iter().all(|x| *x == 7));
}

#[test]
fn a_table_that_does_not_fall_makes_no_model() {
    let rows = vec![0u8; NUM_CONTEXTS];
    let planes = [[12_288, 8192, 4096, 0]; 3];
    assert!(ArithTables::new(rows.clone(), vec![[5u16; 17]], planes).is_none());
    assert!(ArithTables::new(vec![0u8; 3], vec![], planes).is_none());
}

#[test]
fn magnitudes_from_1024_on_are_interpolated() {
    let pow = pow_table();
    assert_eq!(linear(&pow, 1024), pow[128] * 16);
    assert_eq!(linear(&pow, -1028), -((pow[129] - pow[128]) * 4 + pow[128] * 8) * 2);
    assert_eq!(linear(&pow, 9000), linear(&pow, 8191));
}

#[test]
fn scalefactor_data_comes_back() {
    let c = codes();
    let sfs = vec![120, 121, 100, 160, 100];
    let mut w = BitWriter::new();
    write_scale_factor_data(&mut w, &c, &sfs);
    let bytes = w.into_bytes();
    assert_eq!(bytes[0], 120);
    let mut r = BitReader::new(&bytes);
    assert_eq!(read_scale_factor_data(&mut r, &c, 5).unwrap(), sfs);
}

fn channel(layout: &FdLayout, with_tns: bool, salt: i32) -> FdChannel {
    let mut coef = [0i8; 20];
    coef[0] = 5;
    coef[1] = -8;
    coef[2] = 7;
    let mut quant = vec![0i32; FRAME_LEN];
    for i in 0..300 {
        quant[i] = (i as i32 * 37 + salt) % 23 - 11;
    }
    quant[17] = 8000;
    FdChannel {
        scalefactors: (0..layout.num_sfb).map(|b| 120 + (b as i32 * 5 + salt) % 17).collect(),
        noise_level: 3,
        noise_offset: 16,
        tns: if with_tns { Some(TnsFilter { order: 3, coef }) } else { None },
        quant,
    }
}

#[test]
fn a_channel_header_comes_back() {
    let c = codes();
    let layout = FdLayout::new();
    for with_tns in [false, true] {
        let channel = channel(&layout, with_tns, 1);
        let mut w = BitWriter::new();
        write_channel_header(&mut w, &c, &channel, &layout.tns);
        let bytes = w.into_bytes();
        let mut r = BitReader::new(&bytes);
        let header = read_channel_header(&mut r, &c, layout.num_sfb).unwrap();
        assert_eq!(header.scalefactors, channel.scalefactors);
        assert_eq!((header.noise_level, header.noise_offset), (3, 16));
        match header.tns {
            None => assert!(!with_tns),
            Some(f) => {
                assert!(with_tns);
                assert_eq!(f.coefficients, vec![5, -8, 7]);
                assert_eq!(f.resolution, 1);
                assert_eq!(f.length, 49 - 17);
                assert!(!f.downward);
            }
        }
    }
}

#[test]
fn frames_follow_frames() {
    let c = codes();
    let t = model();
    let layout = FdLayout::new();
    let mut enc = Contexts::new();
    let mut dec = Contexts::new();
    for salt in 0..3 {
        let channel = channel(&layout, salt == 1, salt);
        let bytes = encode_frame(&c, &t, &mut enc, &channel, &layout.tns);
        let mut r = BitReader::new(&bytes);
        let block = decode_block(&mut r, &c, &t, &mut dec, layout.num_sfb).unwrap();
        assert_eq!(block.quant, channel.quant);
        assert_eq!(block.header.scalefactors, channel.scalefactors);
        assert!(r.bits_remaining() < 8);
    }
}

#[test]
fn both_channels_of_a_stereo_frame_come_back() {
    let c = codes();
    let t = model();
    let layout = FdLayout::new();
    let left = channel(&layout, true, 2);
    let right = channel(&layout, false, 5);
    let mask: Vec<bool> = (0..layout.num_sfb).map(|b| b % 3 == 0).collect();
    let (mut el, mut er) = (Contexts::new(), Contexts::new());
    let (mut dl, mut dr) = (Contexts::new(), Contexts::new());
    let bytes =
        encode_stereo_frame(&c, &t, &mut el, &mut er, &mask, &left, &right, &layout.tns);
    let mut r = BitReader::new(&bytes);
    let pair = decode_stereo_block(&mut r, &c, &t, &mut dl, &mut dr, layout.num_sfb).unwrap();
    assert_eq!(pair.ms_mask, mask);
    assert_eq!(pair.left.quant, left.quant);
    assert_eq!(pair.right.quant, right.quant);
    assert_eq!(pair.right.header.scalefactors, right.scalefactors);

    let mut r = BitReader::new(&bytes[..2]);
    assert!(decode_stereo_block(&mut r, &c, &t, &mut dl, &mut dr, layout.num_sfb).is_err());
}

#[test]
fn a_trial_is_measured_without_touching_the_contexts() {
    let c = codes();
    let t = model();
    let contexts = Contexts::new();
    let sfs = vec![100, 101];
    let quant = vec![3, -1, 0, 2, 0, 0, 5, 1];
    let cost = trial_cost(&c, &t, &contexts, &sfs, &quant);
    let mut w = BitWriter::new();
    write_scale_factor_data(&mut w, &c, &sfs);
    let mut real = Contexts::new();
    encode_pairs(&mut w, &mut real, &t, &quant, 4, 4);
    assert_eq!(cost, w.bits_written());
    assert_eq!(trial_cost(&c, &t, &contexts, &sfs, &quant), cost);
}

#[test]
fn scalefactors_of_a_trial_are_settled() {
    let settled = settle_scalefactors(&[Some(200), None, Some(110), Some(300)]);
    assert_eq!(settled, vec![170, 100, 110, 170]);
    assert_eq!(settle_scalefactors(&[None]), vec![SF_OFFSET]);
}

/// A band that is not actually all zero must never be treated as a
/// noise-filling candidate.
#[test]
fn a_band_with_a_line_is_never_filled() {
    let layout = FdLayout::new();
    let mut quant = vec![0i32; FRAME_LEN];
    let silent = noise_bands(&layout.sfb_offsets, layout.num_sfb, &quant);
    for b in 0..layout.num_sfb {
        assert_eq!(silent[b], layout.sfb_offsets[b] >= NOISE_FILLING_START_OFFSET);
    }
    let last = layout.num_sfb - 1;
    quant[layout.sfb_offsets[last]] = 3;
    assert!(!noise_bands(&layout.sfb_offsets, layout.num_sfb, &quant)[last]);
    assert_eq!(noise_parameters(0), (0, 0));
    assert_eq!(noise_parameters(5), (5, 16));
}

fn scale_tables() -> ScaleTables {
    let exp: Vec<i64> = (0..32).map(|e| 1i64 << e).collect();
    let frac: Vec<i32> =
        (-3..=3).map(|f| (2f64.powf(f as f64 / 4.0) * (1i64 << 30) as f64) as i32).collect();
    let noise: Vec<i32> = (0..8).map(|l| 1000 * l).collect();
    ScaleTables::new(pow_table(), exp, frac, noise).unwrap()
}

#[test]
fn unit_gain_and_an_octave_above_it() {
    let t = scale_tables();
    assert_eq!(t.fac_fix(SF_OFFSET - 1), 0);
    assert_eq!(t.fac_fix(SF_OFFSET), 1 << 15);
    assert_eq!(t.fac_fix(SF_OFFSET + 4), 1 << 16);
    assert_eq!(t.fac_fix(SF_OFFSET + 8), 1 << 17);
    assert!(ScaleTables::new(vec![], vec![], vec![], vec![]).is_none());
}

#[test]
fn every_band_is_scaled_with_its_own_scalefactor() {
    let t = scale_tables();
    let offsets = [0usize, 160, 164, 168];
    let mut quant = vec![0i32; 170];
    quant[1] = 2;
    quant[161] = -2;
    let header = ChannelHeader {
        scalefactors: vec![108, 112, 120],
        noise_level: 0,
        noise_offset: 0,
        tns: None,
    };
    let mut block = FdBlock { header, quant };
    assert!(channel_fits(&t, &block, &offsets, 3));
    let mut seed = 9u32;
    let coef = dequantize_channel(&t, &block, &offsets, 3, &mut seed);
    let two = pow_table()[2] as i64;
    assert_eq!(coef[1] as i64, (two << 17) >> 22);
    assert_eq!(coef[161] as i64, (-two << 18) >> 22);
    assert_eq!(coef.iter().filter(|c| **c != 0).count(), 2);
    assert_eq!(seed, 9);

    // The third band is all zero and high enough to be filled.
    block.header.noise_level = 7;
    block.header.noise_offset = 16;
    let coef = dequantize_channel(&t, &block, &offsets, 3, &mut seed);
    for i in 164..168 {
        let size = (7000i64 << 20) >> 25;
        assert!((coef[i] as i64).abs() == size || (coef[i] as i64).abs() == size + 1);
    }
    assert_eq!(coef[160], 0);
    assert_eq!(coef[169], 0);
    assert_ne!(seed, 9);
    block.quant[1] = 8191;
    block.header.scalefactors[0] = 255;
    assert!(!channel_fits(&t, &block, &offsets, 3));
}

#[test]
fn noise_shaping_covers_the_same_bands_on_both_sides() {
    assert_eq!(filter_band_range(49), (17, 42));
    assert_eq!(filter_band_range(20), (17, 20));
    let layout = FdLayout::new();
    assert_eq!(layout.num_sfb, 49);
    assert_eq!(layout.sfb_offsets[49], 1024);
    assert_eq!(freq_to_band(0, 49, &layout.sfb_offsets), 0);
    assert_eq!(freq_to_band(22_050, 49, &layout.sfb_offsets), 49);
    assert_eq!(layout.tns.length_field(49), 32);
    let f = TnsFilter::truncated(&[3, 1, -2, 0], &[true, false, true, false]).unwrap();
    assert_eq!(f.order, 3);
    assert!(TnsFilter::truncated(&[1], &[false]).is_none());
}

/// Signs are sent apart from the magnitudes: flipping them changes neither
/// the length of a block nor the contexts, and only its last bits.
#[test]
fn flipped_signs_change_the_trailing_bits_only() {
    let t = model();
    let quant = [5, -3, 0, 7, -120, 1, 0, 0, 2, -2];
    let flipped: Vec<i32> = quant.iter().map(|q| -q).collect();
    let encoded = |q: &[i32]| {
        let mut w = BitWriter::new();
        let mut contexts = Contexts::new();
        encode_pairs(&mut w, &mut contexts, &t, q, 5, 5);
        let first = w.bits_written();
        encode_pairs(&mut w, &mut contexts, &t, &[1, 1], 1, 5);
        let len = w.bits_written();
        let bytes = w.into_bytes();
        let mut r = BitReader::new(&bytes);
        let bits: Vec<bool> = (0..len).map(|_| r.read_bit().unwrap()).collect();
        (first, bits)
    };
    let (a_len, a) = encoded(&quant);
    let (b_len, b) = encoded(&flipped);
    assert_eq!(a_len, b_len);
    let signs = quant.iter().filter(|q| **q != 0).count();
    assert_eq!(a[..a_len - signs], b[..b_len - signs]);
    for i in a_len - signs..a_len {
        assert_ne!(a[i], b[i]);
    }
    assert_eq!(a[a_len..], b[b_len..], "the contexts differ");
}

#[test]
fn a_channel_out_of_shape_cannot_be_written() {
    let mut channel = FdChannel {
        scalefactors: vec![SF_OFFSET; 49],
        noise_level: 0,
        noise_offset: 0,
        tns: None,
        quant: vec![0; FRAME_LEN],
    };
    assert!(channel.is_writable());
    channel.quant[7] = i32::MAX;
    assert!(!channel.is_writable());
    channel.quant[7] = 8191;
    assert!(channel.is_writable());
    channel.scalefactors[3] = i32::MIN;
    assert!(!channel.is_writable());
    channel.scalefactors[3] = SF_OFFSET;
    channel.quant.pop();
    assert!(!channel.is_writable());
}

#[test]
fn a_block_out_of_shape_is_told_apart() {
    let offsets = [0usize, 4, 8];
    let header = ChannelHeader {
        scalefactors: vec![100, 101],
        noise_level: 7,
        noise_offset: 31,
        tns: None,
    };
    let mut block = FdBlock { header, quant: vec![0; 8] };
    assert!(block_has_shape(&block, &offsets, 2));
    assert!(block_has_shape(&block, &offsets, 0));
    assert!(!block_has_shape(&block, &offsets, 3));
    assert!(!block_has_shape(&block, &[0, 8, 4], 2));
    block.header.noise_level = 8;
    assert!(!block_has_shape(&block, &offsets, 2));
    block.header.noise_level = 0;
    block.header.noise_offset = 32;
    assert!(!block_has_shape(&block, &offsets, 2));
    block.header.noise_offset = 0;
    block.header.scalefactors[1] = i32::MAX;
    assert!(!block_has_shape(&block, &offsets, 2));
    block.header.scalefactors.pop();
    assert!(!block_has_shape(&block, &offsets, 2));
}
