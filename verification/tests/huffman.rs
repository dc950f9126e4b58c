//! Huffman coding and the choice of codebooks.
//!
//! The codes here are complete prefix codes of two lengths, laid out as the
//! tables a decoder is built from.

use vuiocodecaac::bitstream::{BitReader, BitWriter};
use vuiocodecaac::decoder::aac::huffman::{decode_scalefactor_delta, decode_spectral_band};
use vuiocodecaac::encoder::aac::huffman::{
    codebook, codebook_lav, minimum_codebook, scalefactor_codeword, spectral_codeword, tuple_cost,
    write_scalefactor_delta, write_tuple, Codeword, EncodeTables, Rom,
};
use vuiocodecaac::encoder::aac::quant::{band_cost, choose_codebook, write_band, BandChoice};
use vuiocodecaac::encoder::aac::rate::{
    bound_scalefactors, cost, record, Quantization, MAX_SCALEFACTOR_DELTA,
};
use vuiocodecaac::error::{DecodeError, Error};

/// A complete code for `n` symbols, the shorter words for the higher symbols.
fn complete_code(n: usize) -> Rom {
    let mut k = 0;
    while (2usize << k) <= n {
        k += 1;
    }
    let short = (2usize << k) - n;
    let mut input_table = vec![0u16];
    for i in 0..n {
        let len = if i < short { k } else { k + 1 };
        input_table.push((((n - 1 - i) as u16) << 5) | len as u16);
    }
    let mut idx_table = vec![(((short - 1) as u32) << 20) | (short as u32 - 1)];
    if short < n {
        let last = 2 * short + (n - short) - 1;
        idx_table.push((((n - 1) as u32) << 20) | last as u32);
    }
    Rom { input_table, idx_table, wide_offset: n > 256 }
}

fn tables() -> EncodeTables {
    let books: Vec<Rom> = (1..=11u8)
        .map(|cb| {
            let book = codebook(cb).unwrap();
            complete_code((book.huff_mode as usize).pow(book.dim as u32))
        })
        .collect();
    EncodeTables::new(&books, &complete_code(121))
}

/// Every symbol of every codebook must have a codeword.
#[test]
fn all_symbols_have_codewords() {
    let t = tables();
    for cb in 1..=11u8 {
        let book = codebook(cb).unwrap();
        let num = (book.huff_mode as usize).pow(book.dim as u32);
        for symbol in 0..num {
            assert!(
                spectral_codeword(&t, cb, symbol).is_some(),
                "cb{cb} symbol {symbol} has no codeword"
            );
        }
    }
    for delta in -60..=60 {
        assert!(scalefactor_codeword(&t, delta).is_some(), "scalefactor delta {delta}");
    }
}

/// Codeword lengths must satisfy the Kraft equality, which holds exactly for a
/// complete prefix code and would fail if any codeword were missing or duplicated.
#[test]
fn codeword_lengths_satisfy_kraft_equality() {
    let t = tables();
    for cb in 1..=11u8 {
        let book = codebook(cb).unwrap();
        let num = (book.huff_mode as usize).pow(book.dim as u32);
        let sum: f64 = (0..num)
            .map(|s| 2f64.powi(-(spectral_codeword(&t, cb, s).unwrap().len as i32)))
            .sum();
        assert!((sum - 1.0).abs() < 1e-9, "cb{cb}: Kraft sum {sum}");
    }
}

/// No codeword may be a prefix of another.
#[test]
fn code_is_prefix_free() {
    let t = tables();
    for cb in 1..=11u8 {
        let book = codebook(cb).unwrap();
        let num = (book.huff_mode as usize).pow(book.dim as u32);
        let mut words: Vec<Codeword> =
            (0..num).map(|s| spectral_codeword(&t, cb, s).unwrap()).collect();
        words.sort_by_key(|c| (c.len, c.bits));
        for (i, a) in words.iter().enumerate() {
            for b in &words[i + 1..] {
                if b.len < a.len {
                    continue;
                }
                let shifted = b.bits >> (b.len - a.len);
                assert!(
                    shifted != a.bits || (a.len == b.len && a.bits != b.bits),
                    "cb{cb}: {a:?} is a prefix of {b:?}"
                );
            }
        }
    }
}

/// Encoding a tuple and decoding it back must return the original values, for
/// every codebook and across its whole representable range.
#[test]
fn encoder_decoder_round_trip() {
    let t = tables();
    for cb in 1..=11u8 {
        let book = codebook(cb).unwrap();
        let lav = book.lav;
        let dim = book.dim;

        // Sweep the full value range each codebook can represent.
        let values: Vec<i32> = if book.unsigned {
            (0..=lav)
                .collect::<Vec<_>>()
                .into_iter()
                .flat_map(|v| if v == 0 { vec![0] } else { vec![v, -v] })
                .collect()
        } else {
            (-lav..=lav).collect()
        };

        for a in &values {
            for b in &values {
                let tuple: Vec<i32> = if dim == 4 { vec![*a, *b, *b, *a] } else { vec![*a, *b] };

                let mut w = BitWriter::with_capacity(16);
                assert!(write_tuple(&mut w, &t, cb, &tuple), "cb{cb} cannot code {tuple:?}");
                w.byte_align_zero();
                let bytes = w.into_bytes();

                let mut r = BitReader::new(&bytes);
                let mut out = vec![0i32; dim];
                decode_spectral_band(&mut r, &t, cb, &mut out).unwrap();
                assert_eq!(out, tuple, "cb{cb} round trip");
            }
        }
    }
}

/// Codebook 11's escape path must round-trip large magnitudes.
#[test]
fn escape_values_round_trip() {
    let t = tables();
    for &mag in &[16i32, 17, 31, 32, 33, 100, 255, 256, 1000, 4095, 8191] {
        for tuple in [[mag, 0], [0, mag], [mag, -mag], [-mag, 3]] {
            let mut w = BitWriter::with_capacity(32);
            assert!(write_tuple(&mut w, &t, 11, &tuple), "cb11 cannot code {tuple:?}");
            w.byte_align_zero();
            let bytes = w.into_bytes();

            let mut r = BitReader::new(&bytes);
            let mut out = [0i32; 2];
            decode_spectral_band(&mut r, &t, 11, &mut out).unwrap();
            assert_eq!(out, tuple, "escape round trip for {tuple:?}");
        }
    }
}

/// Scalefactor deltas must round-trip through the decoder.
#[test]
fn scalefactor_deltas_round_trip() {
    let t = tables();
    for delta in -60..=60 {
        let mut w = BitWriter::with_capacity(8);
        assert!(write_scalefactor_delta(&mut w, &t, delta));
        w.byte_align_zero();
        let bytes = w.into_bytes();
        let mut r = BitReader::new(&bytes);
        assert_eq!(decode_scalefactor_delta(&mut r, &t).unwrap(), delta);
    }
}

/// The reported cost must equal the bits actually written.
#[test]
fn cost_matches_written_length() {
    let t = tables();
    for cb in 1..=11u8 {
        let book = codebook(cb).unwrap();
        let lav = book.lav;
        for v in -lav..=lav {
            let tuple: Vec<i32> = if book.dim == 4 { vec![v, 0, -v, v] } else { vec![v, -v] };
            let cost = tuple_cost(&t, cb, &tuple).expect("representable");
            let mut w = BitWriter::with_capacity(16);
            let before = w.bits_written();
            assert!(write_tuple(&mut w, &t, cb, &tuple));
            let written = w.bits_written() - before;
            assert_eq!(written as u32, cost, "cb{cb} tuple {tuple:?}");
        }
    }
}

/// The chosen codebook must be able to code the band it was chosen for.
#[test]
fn minimum_codebook_covers_its_band() {
    let t = tables();
    for peak in 1..40i32 {
        let band = [peak, -peak, 0, 1];
        let cb = minimum_codebook(&band).expect("nonzero band");
        let mut w = BitWriter::with_capacity(32);
        let dim = codebook(cb).unwrap().dim;
        for chunk in band.chunks(dim) {
            assert!(write_tuple(&mut w, &t, cb, chunk), "cb{cb} cannot code peak {peak}");
        }
    }
    assert_eq!(minimum_codebook(&[0, 0, 0, 0]), None);
}

#[test]
fn a_value_out_of_range_is_not_written() {
    let t = tables();
    let mut w = BitWriter::new();
    assert!(!write_tuple(&mut w, &t, 1, &[2, 0, 0, 0]));
    assert!(!write_tuple(&mut w, &t, 12, &[0, 0]));
    assert!(!write_scalefactor_delta(&mut w, &t, 61));
    assert_eq!(w.bits_written(), 0);
    assert_eq!(tuple_cost(&t, 9, &[13, 0]), None);
    assert_eq!(codebook_lav(5), 4);
    assert!(codebook(0).is_none());
}

#[test]
fn a_word_that_no_symbol_has_is_reported() {
    // A code with a single word of two bits; every other word stands for
    // nothing.
    let sparse = Rom {
        input_table: vec![0, (60 << 5) | 2],
        idx_table: vec![1],
        wide_offset: false,
    };
    let books: Vec<Rom> = (1..=11u8)
        .map(|cb| {
            let book = codebook(cb).unwrap();
            complete_code((book.huff_mode as usize).pow(book.dim as u32))
        })
        .collect();
    let t = EncodeTables::new(&books, &sparse);
    assert_eq!(scalefactor_codeword(&t, 0), Some(Codeword { bits: 1, len: 2 }));
    assert_eq!(scalefactor_codeword(&t, 1), None);
    let bytes = [0xFFu8; 8];
    let mut r = BitReader::new(&bytes);
    assert!(matches!(
        decode_scalefactor_delta(&mut r, &t),
        Err(Error::Decode(DecodeError::HuffmanDecodeError { .. }))
    ));
}

#[test]
fn the_cheapest_codebook_wins_and_its_bits_are_counted() {
    let t = tables();
    for band in [[1, 0, -1, 0], [2, -2, 1, 0], [7, 3, -7, 0], [12, 0, 0, 5], [400, -3, 0, 0]] {
        let choice = choose_codebook(&t, &band).unwrap();
        for cb in 1..=11u8 {
            if let Some(bits) = band_cost(&t, cb, &band) {
                assert!(choice.bits <= bits, "cb{cb} is cheaper for {band:?}");
            }
        }
        let mut w = BitWriter::new();
        assert!(write_band(&mut w, &t, choice.codebook, &band));
        assert_eq!(w.bits_written() as u32, choice.bits);
        let bytes = w.into_bytes();
        let mut r = BitReader::new(&bytes);
        let mut out = [0i32; 4];
        decode_spectral_band(&mut r, &t, choice.codebook, &mut out).unwrap();
        assert_eq!(out, band);
    }
    assert_eq!(choose_codebook(&t, &[0; 4]), Some(BandChoice { codebook: 0, bits: 0 }));
}

#[test]
fn scalefactors_are_brought_within_reach_of_the_lowest() {
    let (bounded, changed) = bound_scalefactors(&[Some(100), None, Some(30), Some(95)]);
    assert_eq!(bounded, vec![Some(90), None, Some(30), Some(90)]);
    assert_eq!(changed, vec![true, false, false, true]);
    for a in bounded.iter().flatten() {
        for b in bounded.iter().flatten() {
            assert!((a - b).abs() <= MAX_SCALEFACTOR_DELTA);
        }
    }
}

#[test]
fn bands_without_a_codebook_stay_out_of_the_delta_chain() {
    let t = tables();
    let choices = vec![
        BandChoice { codebook: 0, bits: 0 },
        BandChoice { codebook: 1, bits: 10 },
        BandChoice { codebook: 0, bits: 0 },
        BandChoice { codebook: 1, bits: 12 },
    ];
    let assigned = [None, Some(110), Some(140), Some(113)];
    let q = record(&t, &assigned, choices, vec![0; 16]);
    assert_eq!(q.scalefactors, vec![100, 110, 100, 113]);
    assert_eq!(q.first_coded, Some(1));
    assert_eq!(cost(&t, &q, 4), q.bits);
    let silent = Quantization::new(16, 4);
    assert!(cost(&t, &silent, 4) < q.bits);
    assert_eq!(silent.first_coded, None);
}

/// A complete code has a word for whatever comes.
#[test]
fn a_complete_code_reads_anything() {
    let t = tables();
    let mut seed = 1u32;
    for _ in 0..200 {
        let mut bytes = [0u8; 8];
        for b in bytes.iter_mut() {
            seed = seed.wrapping_mul(1_664_525).wrapping_add(1_013_904_223);
            *b = (seed >> 24) as u8;
        }
        let delta = decode_scalefactor_delta(&mut BitReader::new(&bytes), &t).unwrap();
        assert!((-60..=60).contains(&delta));
    }
}
