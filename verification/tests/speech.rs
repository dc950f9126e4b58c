//! The linear prediction path and the container.

use vuiocodecaac::bitstream::BitReader;
use vuiocodecaac::decoder::usac::acelp::{
    decode_pulses, place_1, sharpening_lag, AcelpFrame, LagTracker, PitchRange,
};
use vuiocodecaac::decoder::usac::container::{
    decode, is_usac_container, parse_header, read_frame, DecodedUsac,
};
use vuiocodecaac::decoder::usac::{frame_len, LpdFrame, LpdModeSet, LpdSubframeMode, UsacCoreMode};
use vuiocodecaac::encoder::ps::PsEncoder;
use vuiocodecaac::encoder::sbr::SbrEncoder;
use vuiocodecaac::encoder::usac::container::{encode, fill_channel, frame_count};
use vuiocodecaac::encoder::usac::{Side, UsacEncoder};
use vuiocodecaac::error::{Error, FormatError};
use vuiocodecaac::tables::usac_acelp::{FSCALE_DENOM, LEN_SUBFR};

/// Every mode must place the number of pulses its bit budget pays for, on
/// the tracks it says, and nowhere else. A pulse landing on the wrong track
/// is the classic transcription error in this ladder.
#[test]
fn each_mode_places_the_pulses_its_budget_pays_for() {
    // (code_bits, expected non-zero count) with indices chosen so no two
    // pulses of a track collide and cancel.
    let cases = [(20u16, 4usize), (28, 6), (36, 8), (44, 10), (52, 12)];
    for (bits, expected) in cases {
        let indices = [1, 2 | (3 << 4), 3 | (5 << 4), 4 | (6 << 4), 0, 0, 0, 0];
        let code = decode_pulses(&indices, bits);
        let nonzero = code.iter().filter(|c| **c != 0).count();
        assert!(
            nonzero > 0 && nonzero <= expected,
            "mode {bits}: {nonzero} pulses, expected at most {expected}"
        );
        for c in code.iter() {
            assert!(c.abs() <= 4, "pulse magnitudes stay small: {c}");
        }
    }
}

#[test]
fn a_single_pulse_lands_on_its_own_track_with_its_own_sign() {
    let mut code = [0i32; LEN_SUBFR];
    place_1(5, 4, 0, 2, &mut code); // position 5, sign +, track 2
    assert_eq!(code[5 * 4 + 2], 1);
    assert_eq!(code.iter().filter(|c| **c != 0).count(), 1);

    let mut code = [0i32; LEN_SUBFR];
    place_1(5 | (1 << 4), 4, 0, 1, &mut code); // sign bit set
    assert_eq!(code[5 * 4 + 1], -1);
}

/// The unscaled grid has these constants exactly, and
/// every index in range must decode to a lag inside it.
#[test]
fn the_pitch_grid_covers_its_whole_index_range() {
    let r = PitchRange::new(FSCALE_DENOM);
    assert_eq!((r.min, r.fr2, r.fr1, r.max), (34, 128, 160, 231));
    for index in 0..512 {
        let (lag, frac) = r.absolute(index);
        if lag > r.max {
            break;
        }
        assert!(lag >= r.min, "index {index} gave lag {lag} below min {}", r.min);
        assert!((0..4).contains(&frac), "index {index} gave fraction {frac}");
    }
}

/// Parsing must consume exactly the bits the mode's field widths describe,
/// or every subsequent element in the frame is misaligned.
#[test]
fn parsing_consumes_exactly_the_modes_field_widths() {
    // Mode 2 sends [9,9,9,9] for the innovation. The pitch-lag field is 9
    // bits in the two absolutely-coded subframes (0 and 2) and 6 in the
    // others, so the total is not simply four identical subframes.
    let bytes = [0xA5u8; 64];
    let mut reader = BitReader::new(&bytes);
    let start = reader.bit_position();
    let frame = AcelpFrame::parse(&mut reader, 2, 4).unwrap();
    let consumed = reader.bit_position() - start;
    assert_eq!(frame.subframes.len(), 4);
    assert_eq!(consumed, 2 + (9 + 6 + 9 + 6) + 4 * (1 + 9 * 4 + 7));
}

#[test]
fn an_out_of_range_core_mode_is_rejected_rather_than_indexing_past_the_table() {
    let bytes = [0u8; 32];
    let mut reader = BitReader::new(&bytes);
    assert!(AcelpFrame::parse(&mut reader, 9, 4).is_err());
}

/// The mode ladder is easy to get subtly wrong, and a wrong unpacking
/// silently mis-routes subframes rather than failing, so pin the corners.
#[test]
fn the_lpd_mode_ladder_unpacks_to_the_reference_assignments() {
    let acelp = LpdSubframeMode::Acelp;
    let tcx20 = LpdSubframeMode::Tcx20;
    let tcx40 = LpdSubframeMode::Tcx40;
    let tcx80 = LpdSubframeMode::Tcx80;
    assert_eq!(LpdModeSet::parse(25).unwrap().0, [tcx80; 4]);
    assert_eq!(LpdModeSet::parse(24).unwrap().0, [tcx40; 4]);
    assert_eq!(LpdModeSet::parse(0).unwrap().0, [acelp; 4]);
    assert_eq!(LpdModeSet::parse(15).unwrap().0, [tcx20; 4]);
    assert_eq!(LpdModeSet::parse(20).unwrap().0, [acelp, acelp, tcx40, tcx40]);
    assert_eq!(LpdModeSet::parse(23).unwrap().0, [tcx20, tcx20, tcx40, tcx40]);
    assert_eq!(LpdModeSet::parse(16).unwrap().0, [tcx40, tcx40, acelp, acelp]);
    assert!(LpdModeSet::parse(26).is_err());
    assert!(LpdModeSet::parse(0).unwrap().is_all_acelp());
    assert!(!LpdModeSet::parse(24).unwrap().is_all_acelp());
}

/// A TCX frame must be refused outright rather than silently decoded as
/// something else.
#[test]
fn a_tcx_frame_is_refused_rather_than_faked() {
    // lpd_mode = 25 -> TCX80 across the superframe.
    let bytes = [0b0001_1001u8, 0x00, 0x00, 0x00];
    let mut reader = BitReader::new(&bytes);
    match LpdFrame::parse(&mut reader) {
        Err(Error::Format(FormatError::InvalidUsacContainer(text))) => {
            assert!(text.contains("TCX"), "unexpected error: {text}");
        }
        other => panic!("unexpected: {}", other.is_ok()),
    }
}

/// The reader lands exactly where the frame's field widths say it should.
#[test]
fn an_all_acelp_frame_is_read_to_its_end() {
    let mut bytes = vec![0x40u8, 0x00];
    bytes.extend(vec![0x9Cu8; 62]);
    let mut reader = BitReader::new(&bytes);
    let lpd = LpdFrame::parse(&mut reader).unwrap();
    assert_eq!(lpd.core_mode, 2);
    assert_eq!(lpd.frame.subframes.len(), 4);
    assert_eq!(reader.bit_position(), 3 + 5 + 2 + (9 + 6 + 9 + 6) + 4 * (1 + 36 + 7));
    assert_eq!(frame_len(), 256);
    assert!(lpd.frame.check_buffers(4, 256).is_ok());
    assert!(lpd.frame.check_buffers(3, 256).is_err());
    assert!(lpd.frame.check_buffers(4, 255).is_err());
}

#[test]
fn a_differential_lag_follows_the_absolute_one_before_it() {
    let mut tracker = LagTracker::new(FSCALE_DENOM);
    let (lag, frac) = tracker.decode(200, true);
    assert_eq!((lag, frac), PitchRange::new(FSCALE_DENOM).absolute(200));
    let (next, _) = tracker.decode(32, false);
    assert!((next - lag).abs() <= 8, "{next} is far from {lag}");
    assert_eq!(sharpening_lag(40, 0), 40);
    assert_eq!(sharpening_lag(40, 3), 41);
}

#[test]
fn encoding_is_refused_rather_than_returning_broadband_stand_ins() {
    let enc = PsEncoder::new();
    let mut downmix = vec![0.0f32; 512];
    let err =
        enc.encode_stereo(&vec![1.0f32; 512], &vec![0.5f32; 512], &mut downmix).unwrap_err();
    assert!(matches!(err, Error::Unimplemented { .. }));
    assert!(downmix.iter().all(|s| *s == 0.0), "output must be untouched");
}

#[test]
fn encoding_is_refused_rather_than_emitting_an_unreadable_payload() {
    let mut enc = SbrEncoder::new(44100, 128_000);
    let err = enc.encode_sbr_frame(&vec![0.25f32; 1024]).unwrap_err();
    assert!(matches!(err, Error::Unimplemented { .. }));
    assert_eq!((enc.sample_rate(), enc.bitrate()), (44100, 128_000));
}

#[test]
fn test_usac_classification() {
    let usac_enc = UsacEncoder::new();
    let low_freq_sine: Vec<f32> = (0..1024).map(|i| (i as f32 * 0.02).sin()).collect();
    let sides: Vec<Side> = low_freq_sine
        .iter()
        .map(|x| if *x >= 0.0 { Side::NotNegative } else { Side::Negative })
        .collect();
    let mode = usac_enc.classify_frame(&sides);
    assert_eq!(mode, UsacCoreMode::LpdMode);
    let busy: Vec<Side> =
        (0..1024).map(|i| if i % 2 == 0 { Side::NotNegative } else { Side::Negative }).collect();
    assert_eq!(usac_enc.classify_frame(&busy), UsacCoreMode::FdMode);
}

#[test]
fn rejects_unsupported_channel_counts() {
    let blocks: Vec<Vec<u8>> = vec![vec![0u8; 8]; 3];
    assert!(encode(&blocks, 3, 44_100).is_err());
    match encode(&blocks, 3, 44_100) {
        Err(Error::Format(FormatError::InvalidUsacContainer(text))) => {
            assert_eq!(text, "USAC FD path supports 1 or 2 channels, got 3");
        }
        other => panic!("unexpected: {other:?}"),
    }
}

#[test]
fn rejects_unsupported_sample_rates() {
    let blocks: Vec<Vec<u8>> = vec![vec![0u8; 8]];
    assert!(encode(&blocks, 1, 22_050).is_err());
    match encode(&blocks, 1, 22_050) {
        Err(Error::Format(FormatError::InvalidUsacContainer(text))) => {
            assert_eq!(text, "USAC FD path supports 44100 or 48000 Hz only, got 22050");
        }
        other => panic!("unexpected: {other:?}"),
    }
}

#[test]
fn blocks_come_back_from_the_container() {
    let blocks: Vec<Vec<u8>> = vec![vec![1, 2, 3], vec![], vec![9; 300]];
    for (channels, rate) in [(1usize, 44_100u32), (2, 48_000)] {
        let bytes = encode(&blocks, channels, rate).unwrap();
        assert!(is_usac_container(&bytes));
        let header = parse_header(&bytes).unwrap();
        assert_eq!((header.channels, header.sample_rate_hz), (channels, rate));
        let stream = decode(&bytes).unwrap();
        assert_eq!(stream.frames, blocks);
        assert_eq!(read_frame(&bytes, 8).unwrap(), Some((12, 15)));
        assert_eq!(read_frame(&bytes, bytes.len()).unwrap(), None);
        assert!(decode(&bytes[..bytes.len() - 1]).is_err());
    }
    assert!(!is_usac_container(b"RIFF0000"));
    assert!(parse_header(b"RIFF0000").is_err());
}

#[test]
fn samples_are_taken_apart_and_interleaved_again() {
    let samples: Vec<i16> = (0..10).collect();
    assert_eq!(frame_count(10, 2, 4), 2);
    assert_eq!(fill_channel(&samples, 0, 2, 0, 4), vec![0, 2, 4, 6]);
    assert_eq!(fill_channel(&samples, 8, 2, 1, 4), vec![9, 0, 0, 0]);
    let bytes = encode(&vec![], 2, 44_100).unwrap();
    let mut out = DecodedUsac::new(parse_header(&bytes).unwrap());
    out.push_frame(&vec![vec![0, 2, 4, 6], vec![1, 3, 5, 7]], 4);
    assert_eq!(out.samples, vec![0, 1, 2, 3, 4, 5, 6, 7]);
}

/// Of all fields only zero says that every subframe is ACELP.
#[test]
fn only_mode_zero_is_all_acelp() {
    for field in 0..=25u8 {
        assert_eq!(LpdModeSet::parse(field).unwrap().is_all_acelp(), field == 0, "{field}");
    }
}

/// Wherever the grid stands, a larger index names a longer lag.
#[test]
fn lags_grow_with_their_index_at_every_core_rate() {
    for fscale in [6_400, 9_600, 12_800, 16_000, 24_000, 32_000] {
        let grid = PitchRange::new(fscale);
        let mut last = i32::MIN;
        for index in 0..512 {
            let (lag, frac) = grid.absolute(index);
            assert!(lag >= grid.min && (0..4).contains(&frac));
            assert!(4 * lag + frac > last, "{fscale} {index}");
            last = 4 * lag + frac;
        }
        let (lag, _) = grid.absolute(511);
        if grid.min >= 22 {
            assert_eq!(lag, grid.max, "{fscale}");
        } else {
            assert!(lag > grid.max, "{fscale}");
        }
    }
}

/// A stream keeps its channel count, its rate and 1024 samples per channel and
/// frame.
#[test]
fn a_decoded_stream_has_as_many_samples_as_its_frames() {
    let blocks = vec![vec![1u8, 2], vec![], vec![3u8; 300]];
    let bytes = encode(&blocks, 2, 44_100).unwrap();
    let coded = decode(&bytes).unwrap();
    assert_eq!((coded.header.channels, coded.header.sample_rate_hz), (2, 44_100));
    let mut stream = DecodedUsac::new(coded.header);
    for _ in &coded.frames {
        stream.push_frame(&vec![vec![1i16; 1024], vec![-1i16; 1024]], 1024);
    }
    assert_eq!(stream.samples.len(), 3 * 2 * 1024);
    assert_eq!((stream.channels, stream.sample_rate_hz), (2, 44_100));
}

/// Pulses that meet add up or cancel in pairs, so that the magnitudes add up to
/// the budget less an even number.
#[test]
fn magnitudes_add_up_to_the_budget_but_for_cancelled_pairs() {
    let budgets = [(12u16, 2), (16, 3), (20, 4), (28, 6), (36, 8), (44, 10), (52, 12), (64, 16)];
    let mut seed = 7u32;
    let mut cancelled = 0;
    for (bits, budget) in budgets {
        for _ in 0..300 {
            let mut indices = [0i32; 8];
            for x in indices.iter_mut() {
                seed = seed.wrapping_mul(1_664_525).wrapping_add(1_013_904_223);
                *x = (seed >> 18) as i32;
            }
            if bits == 12 {
                indices[0] &= 1;
                indices[2] &= 1;
            }
            if bits == 64 {
                for x in indices.iter_mut().take(4) {
                    *x &= 3;
                }
            }
            let code = decode_pulses(&indices, bits);
            let strength: i32 = code.iter().map(|c| c.abs()).sum();
            assert!(strength <= budget && strength % 2 == budget % 2, "{bits}: {code:?}");
            assert!(code.iter().all(|c| c.abs() <= 4), "{bits}: {code:?}");
            if strength < budget {
                cancelled += 1;
            }
        }
    }
    assert!(cancelled > 0);
    assert_eq!(decode_pulses(&[0; 8], 13), [0; 64]);
}
