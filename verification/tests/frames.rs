//! Whole frames, dynamic range data and the frame schedule.

use vuiocodecaac::bitstream::{BitReader, BitWriter};
use vuiocodecaac::decoder::aac::huffman::{decode_scalefactor_delta, decode_spectral_band};
use vuiocodecaac::decoder::drc::DrcInfo;
use vuiocodecaac::encoder::aac::bitstream::{
    finalize_adts_frame, write_cpe, write_lfe, write_multichannel_elements, write_sce,
};
use vuiocodecaac::encoder::aac::block_switch::{BlockDecision, Transient, GROUPING};
use vuiocodecaac::encoder::aac::huffman::{codebook, EncodeTables, Rom};
use vuiocodecaac::encoder::aac::ics::{global_gain, ChannelCoding};
use vuiocodecaac::encoder::aac::quant::choose_codebook;
use vuiocodecaac::encoder::aac::rate::record;
use vuiocodecaac::encoder::drc::write_dynamic_range_info;
use vuiocodecaac::encoder::engine::{
    build_coding_table, grouped_order, layout_of, next_share, payload_budget, EncoderConfig,
    FrameWriter, Geometry, Lookahead, OutputFormat,
};
use vuiocodecaac::syntax::adif::AdifHeader;
use vuiocodecaac::syntax::adts::AdtsHeader;
use vuiocodecaac::types::{
    AudioObjectType, ChannelConfiguration, FrameLength, SamplingRate, WindowSequence,
};

fn complete_code(n: usize) -> Rom {
    let mut k = 0;
    while (2usize << k) <= n {
        k += 1;
    }
    let short = (2usize << k) - n;
    let mut input_table = vec![0u16];
    for i in 0..n {
        let len = if i < short { k } else { k + 1 };
        input_table.push(((i as u16) << 5) | len as u16);
    }
    let mut idx_table = vec![(((short - 1) as u32) << 20) | (short as u32 - 1)];
    if short < n {
        let last = 2 * short + (n - short) - 1;
        idx_table.push((((n - 1) as u32) << 20) | last as u32);
    }
    Rom { input_table, idx_table, wide_offset: n > 256 }
}

fn codes() -> EncodeTables {
    let books: Vec<Rom> = (1..=11u8)
        .map(|cb| {
            let book = codebook(cb).unwrap();
            complete_code((book.huff_mode as usize).pow(book.dim as u32))
        })
        .collect();
    EncodeTables::new(&books, &complete_code(121))
}

fn long_decision() -> BlockDecision {
    let mut groups = [0usize; 8];
    groups[0] = 1;
    BlockDecision { sequence: WindowSequence::OnlyLongSequence, groups, group_count: 1 }
}

fn coding(t: &EncodeTables, offsets: &[usize], salt: i32) -> ChannelCoding {
    let bands = offsets.len() - 1;
    let quant: Vec<i32> =
        (0..1024).map(|i| if i < 200 { (i as i32 * 7 + salt) % 5 - 2 } else { 0 }).collect();
    let choices = (0..bands)
        .map(|b| choose_codebook(t, &quant[offsets[b]..offsets[b + 1]]).unwrap())
        .collect();
    let assigned: Vec<Option<i32>> = (0..bands).map(|b| Some(110 + b as i32 % 4)).collect();
    ChannelCoding { coded: record(t, &assigned, choices, quant), tns: None }
}

/// Every emitted frame must be a well-formed ADTS frame whose declared length
/// matches what was produced.
#[test]
fn frames_are_well_formed() {
    let t = codes();
    let config = EncoderConfig::default();
    let g = Geometry::new(&config);
    let d = long_decision();
    let offsets = build_coding_table(&g, &d);
    let layout = layout_of(&g, &d);
    let mut writer = FrameWriter::new(config);
    for salt in 0..8 {
        let channels = vec![coding(&t, &offsets, salt), coding(&t, &offsets, salt + 1)];
        assert_eq!(global_gain(&channels[0], layout.coded_bands()), 110);
        let frame = writer.write_frame(&t, &channels, &offsets, &layout, None);
        let mut r = BitReader::new(&frame);
        let header = AdtsHeader::parse(&mut r).expect("header parses");
        assert_eq!(header.frame_length as usize, frame.len(), "declared length mismatch");
        assert_eq!(header.sampling_rate, SamplingRate::Hz44100);
        assert_eq!(header.channel_config, ChannelConfiguration::Stereo);
    }
    assert_eq!(writer.frame_count(), 8);
}

/// Reads the gain and the payload of a long channel, and compares them with
/// what was written.
fn read_channel(r: &mut BitReader, t: &EncodeTables, channel: &ChannelCoding, offsets: &[usize]) {
    let bands = offsets.len() - 1;
    let mut running = r.read_u32(8).unwrap() as i32;
    let mut books: Vec<u8> = Vec::new();
    while books.len() < bands {
        let cb = r.read_u8(4).unwrap();
        let mut run = 0usize;
        loop {
            let step = r.read_u8(5).unwrap() as usize;
            run += step;
            if step < 31 {
                break;
            }
        }
        for _ in 0..run {
            books.push(cb);
        }
    }
    let written: Vec<u8> = channel.coded.choices.iter().map(|c| c.codebook).collect();
    assert_eq!(books, written);
    for b in 0..bands {
        if books[b] != 0 {
            running += decode_scalefactor_delta(r, t).unwrap();
            assert_eq!(running, channel.coded.scalefactors[b], "band {b}");
        }
    }
    assert_eq!(r.read_u8(3).unwrap(), 0, "no pulses, no filter, no gain control");
    for b in 0..bands {
        if books[b] != 0 {
            let (lo, hi) = (offsets[b], offsets[b + 1]);
            let mut band = vec![0i32; hi - lo];
            decode_spectral_band(r, t, books[b], &mut band).unwrap();
            assert_eq!(band[..], channel.coded.quant[lo..hi], "band {b}");
        }
    }
}

#[test]
fn a_frame_reads_back_channel_by_channel() {
    let t = codes();
    let config = EncoderConfig::default();
    let g = Geometry::new(&config);
    let d = long_decision();
    let offsets = build_coding_table(&g, &d);
    let layout = layout_of(&g, &d);
    let mut writer = FrameWriter::new(config);
    let channels: Vec<ChannelCoding> = (0..3).map(|salt| coding(&t, &offsets, salt)).collect();
    let mask: Vec<bool> = (0..64).map(|b| b % 3 == 0).collect();
    let frame = writer.write_frame(&t, &channels, &offsets, &layout, Some(mask.as_slice()));
    let mut r = BitReader::new(&frame);
    AdtsHeader::parse(&mut r).unwrap();

    // A pair that shares its window and says which bands are mid and side.
    assert_eq!(r.read_u8(3).unwrap(), 1);
    assert_eq!(r.read_u8(4).unwrap(), 0);
    assert!(r.read_bit().unwrap());
    assert_eq!(r.read_u8(4).unwrap(), 0, "long window of sine shape");
    assert_eq!(r.read_u8(6).unwrap(), 49);
    assert!(!r.read_bit().unwrap());
    assert_eq!(r.read_u8(2).unwrap(), 1);
    for b in 0..49 {
        assert_eq!(r.read_bit().unwrap(), mask[b], "band {b}");
    }
    read_channel(&mut r, &t, &channels[0], &offsets);
    read_channel(&mut r, &t, &channels[1], &offsets);

    // The third channel on its own: its gain stands before its window.
    assert_eq!(r.read_u8(3).unwrap(), 0);
    assert_eq!(r.read_u8(4).unwrap(), 0);
    let gain = global_gain(&channels[2], layout.coded_bands());
    assert_eq!(r.read_u8(8).unwrap(), gain);
    assert_eq!(r.read_u8(4).unwrap(), 0);
    assert_eq!(r.read_u8(6).unwrap(), 49);
    assert!(!r.read_bit().unwrap());
    let mut again = BitWriter::new();
    again.write_u8(gain, 8);
    while r.bits_remaining() > 0 {
        again.write_bit(r.read_bit().unwrap());
    }
    let bytes = again.into_bytes();
    let mut r = BitReader::new(&bytes);
    read_channel(&mut r, &t, &channels[2], &offsets);

    assert_eq!(r.read_u8(3).unwrap(), 7);
    assert!(r.bits_remaining() < 16);
}

#[test]
fn an_adif_stream_has_one_header() {
    let t = codes();
    let config = EncoderConfig { output_format: OutputFormat::Adif, ..EncoderConfig::default() };
    let g = Geometry::new(&config);
    let d = long_decision();
    let offsets = build_coding_table(&g, &d);
    let layout = layout_of(&g, &d);
    let mut writer = FrameWriter::new(config);
    let channels = vec![coding(&t, &offsets, 1), coding(&t, &offsets, 2)];
    let first = writer.write_frame(&t, &channels, &offsets, &layout, None);
    let second = writer.write_frame(&t, &channels, &offsets, &layout, None);
    assert!(first.len() > second.len());
    let mut r = BitReader::new(&first);
    let header = AdifHeader::parse(&mut r).unwrap();
    assert_eq!(header.bitrate, 128_000);
    let mut r = BitReader::new(&second);
    assert!(AdifHeader::parse(&mut r).is_err());
    writer.reset();
    assert_eq!(writer.frame_count(), 0);
    assert_eq!(writer.write_frame(&t, &channels, &offsets, &layout, None), second);
}

#[test]
fn a_short_frame_is_coded_group_by_group() {
    let g = Geometry::new(&EncoderConfig::default());
    let mut groups = [0usize; 8];
    groups[..4].copy_from_slice(&GROUPING[3]);
    let d = BlockDecision {
        sequence: WindowSequence::EightShortSequence,
        groups,
        group_count: 4,
    };
    let layout = layout_of(&g, &d);
    assert_eq!(layout.max_sfb, 14);
    assert_eq!(layout.group_count, 4);
    let table = build_coding_table(&g, &d);
    assert_eq!(table.len(), 4 * 14 + 1);
    assert_eq!(table[56], 1024);
    let order = grouped_order(&g, &d, 1024);
    let mut seen = vec![false; 1024];
    for i in &order {
        assert!(!seen[*i], "line {i} is coded twice");
        seen[*i] = true;
    }
    assert_eq!(order.len(), 1024);
    let long = grouped_order(&g, &long_decision(), 1024);
    assert_eq!(long, (0..1024).collect::<Vec<usize>>());
    assert_eq!((g.num_bands(), g.short_bands()), (49, 14));
}

#[test]
fn a_frame_is_held_back_until_its_successor_is_known() {
    let quiet = Transient { attack: false, sub_block: 0 };
    let loud = Transient { attack: true, sub_block: 2 };
    let mut held: Lookahead<u32> = Lookahead::new();
    assert!(held.push(1, quiet).is_none());
    assert_eq!(held.push(2, loud), Some((1, quiet, loud)));
    assert_eq!(held.flush(), Some((2, loud, quiet)));
    assert_eq!(held.flush(), None);
    held.push(3, quiet);
    held.reset();
    assert_eq!(held.flush(), None);
}

#[test]
fn what_is_left_goes_to_the_channel_that_wants_it_most() {
    assert_eq!(payload_budget(1000, false, 0, 2), 1000 - (59 + 3 + 4 + 1 + 11 + 2 + 16));
    assert_eq!(payload_budget(10, false, 0, 2), 0);
    assert_eq!(next_share(&[500, 300], &[500, 500], &[9, 1], 1000), Some((0, 200)));
    assert_eq!(next_share(&[500, 490], &[500, 500], &[9, 1], 1000), None);
    assert_eq!(next_share(&[100, 100], &[500, 500], &[9, 1], 1000), None);
}

/// Metadata written must parse back to the same thing.
#[test]
fn dynamic_range_data_comes_back() {
    let mut info = DrcInfo {
        bands: 1,
        band_top: [usize::MAX; 16],
        gain: [0; 16],
        reference_level: Some(92),
        channel_included: [true; 8],
        interpolation_scheme: 0,
    };
    info.gain[0] = -24;
    let mut w = BitWriter::with_capacity(32);
    write_dynamic_range_info(&mut w, &info);
    w.byte_align_zero();
    let bytes = w.into_bytes();
    let mut reader = BitReader::new(&bytes);
    let parsed = DrcInfo::parse(&mut reader).unwrap();
    assert_eq!(parsed.bands, info.bands);
    assert_eq!(parsed.gain[0], info.gain[0]);
    assert_eq!(parsed.reference_level, info.reference_level);
}

/// Any of the eight channels can be excluded, the last one too.
#[test]
fn every_excluded_channel_comes_back() {
    for pattern in 0..=255u32 {
        let mut info = DrcInfo {
            bands: 1,
            band_top: [usize::MAX; 16],
            gain: [0; 16],
            reference_level: None,
            channel_included: [true; 8],
            interpolation_scheme: 0,
        };
        for c in 0..8 {
            info.channel_included[c] = pattern >> c & 1 == 0;
        }
        info.gain[0] = 12;
        let mut w = BitWriter::new();
        write_dynamic_range_info(&mut w, &info);
        w.byte_align_zero();
        let bytes = w.into_bytes();
        let parsed = DrcInfo::parse(&mut BitReader::new(&bytes)).unwrap();
        assert_eq!(parsed, info, "pattern {pattern:#x}");
    }
    // Only the eighth: the tag bit, the exclusion bit, seven clear bits, the
    // bit that announces a further mask, and that mask.
    let info = DrcInfo {
        bands: 1,
        band_top: [usize::MAX; 16],
        gain: [0; 16],
        reference_level: None,
        channel_included: [true, true, true, true, true, true, true, false],
        interpolation_scheme: 0,
    };
    let mut w = BitWriter::new();
    write_dynamic_range_info(&mut w, &info);
    w.byte_align_zero();
    assert_eq!(w.into_bytes()[..3], [0b0100_0000, 0b0110_0000, 0b0000_0000]);
}

#[test]
fn a_header_is_put_in_front_of_a_payload() {
    let frame = finalize_adts_frame(
        &[1, 2, 3],
        AudioObjectType::AacLc,
        SamplingRate::Hz48000,
        ChannelConfiguration::Mono,
    );
    assert_eq!(frame.len(), 10);
    let mut r = BitReader::new(&frame);
    let header = AdtsHeader::parse(&mut r).unwrap();
    assert_eq!(header.frame_length as usize, 10);
    assert_eq!(&frame[7..], &[1, 2, 3]);
}

#[test]
fn an_element_starts_with_its_kind_and_tag() {
    let mut w = BitWriter::new();
    write_sce(&mut w, 5, 140, 0, &[]);
    let bytes = w.into_bytes();
    let mut r = BitReader::new(&bytes);
    assert_eq!(r.read_u8(3).unwrap(), 0);
    assert_eq!(r.read_u8(4).unwrap(), 5);
    assert_eq!(r.read_u8(8).unwrap(), 140);

    let gains = [100i16; 6];
    let quantized: Vec<Vec<i32>> = vec![vec![]; 6];
    let mut w = BitWriter::new();
    write_multichannel_elements(
        &mut w,
        ChannelConfiguration::from_u8(6).unwrap(),
        &gains,
        0,
        &quantized,
        None,
    );
    let bytes = w.into_bytes();
    let mut r = BitReader::new(&bytes);
    assert_eq!(r.read_u8(3).unwrap(), 0);
}

/// The elements of each configuration, in order.
#[test]
fn every_configuration_has_its_elements() {
    let gains: [i16; 8] = [100, 101, 102, 103, 104, 105, 106, 107];
    let quantized: Vec<Vec<i32>> = vec![Vec::new(); 8];
    let q: [i32; 0] = [];
    let written = |config: ChannelConfiguration| {
        let mut w = BitWriter::new();
        write_multichannel_elements(&mut w, config, &gains, 20, &quantized, None);
        (w.bits_written(), w.into_bytes())
    };
    let spelled = |singles: &[(u8, usize)], pairs: &[(u8, usize)], order: &str| {
        let mut w = BitWriter::new();
        let (mut s, mut p) = (singles.iter(), pairs.iter());
        for kind in order.chars() {
            if kind == 'p' {
                let (tag, c) = *p.next().unwrap();
                write_cpe(&mut w, tag, gains[c], gains[c + 1], 20, &q, &q);
            } else {
                let (tag, c) = *s.next().unwrap();
                if kind == 's' {
                    write_sce(&mut w, tag, gains[c], 20, &q);
                } else {
                    write_lfe(&mut w, tag, gains[c], 20, &q);
                }
            }
        }
        (w.bits_written(), w.into_bytes())
    };
    assert_eq!(written(ChannelConfiguration::Mono), spelled(&[(0, 0)], &[], "s"));
    assert_eq!(written(ChannelConfiguration::Stereo), spelled(&[], &[(0, 0)], "p"));
    assert_eq!(written(ChannelConfiguration::ThreeChannel), spelled(&[(0, 0)], &[(0, 1)], "sp"));
    assert_eq!(
        written(ChannelConfiguration::FourChannel),
        spelled(&[(0, 0), (1, 3)], &[(0, 1)], "sps")
    );
    assert_eq!(
        written(ChannelConfiguration::FiveChannel),
        spelled(&[(0, 0)], &[(0, 1), (1, 3)], "spp")
    );
    assert_eq!(
        written(ChannelConfiguration::FivePointOne),
        spelled(&[(0, 0), (0, 5)], &[(0, 1), (1, 3)], "sppl")
    );
    for config in [ChannelConfiguration::SevenPointOne, ChannelConfiguration::SevenPointOneTop] {
        assert_eq!(
            written(config),
            spelled(&[(0, 0), (0, 7)], &[(0, 1), (1, 3), (2, 5)], "spppl")
        );
    }
}

/// A low frequency element is a single channel element of at most twelve bands
/// under another identifier.
#[test]
fn a_low_frequency_element_is_a_capped_single() {
    for max_sfb in [0u8, 7, 12, 13, 49] {
        let (mut a, mut b) = (BitWriter::new(), BitWriter::new());
        write_sce(&mut a, 5, 99, max_sfb.min(12), &[1, 2]);
        write_lfe(&mut b, 5, 99, max_sfb, &[]);
        assert_eq!((a.bits_written(), b.bits_written()), (38, 38));
        let (a, b) = (a.into_bytes(), b.into_bytes());
        assert_eq!((a[0] >> 5, b[0] >> 5), (0b000, 0b011));
        assert_eq!((a[0] & 0x1f, &a[1..]), (b[0] & 0x1f, &b[1..]));
    }
}

/// Of all pushes only the first gives nothing out, and every frame comes out
/// once and in order.
#[test]
fn frames_come_out_once_and_in_order() {
    let mut held: Lookahead<usize> = Lookahead::new();
    let found = |i: usize| Transient { attack: i % 3 == 0, sub_block: i % 8 };
    for i in 0..10 {
        let out = held.push(i, found(i));
        if i == 0 {
            assert!(out.is_none());
        } else {
            assert_eq!(out, Some((i - 1, found(i - 1), found(i))));
        }
    }
    let quiet = Transient { attack: false, sub_block: 0 };
    assert_eq!(held.flush(), Some((9, found(9), quiet)));
    assert_eq!(held.flush(), None);
}

#[test]
fn every_coded_band_divides_into_tuples() {
    for index in 0..13u8 {
        for frame_length in [FrameLength::Samples1024, FrameLength::Samples960] {
            let config = EncoderConfig {
                sampling_rate: SamplingRate::from_index(index).unwrap(),
                frame_length,
                ..EncoderConfig::default()
            };
            let g = Geometry::new(&config);
            let mut decisions = vec![long_decision()];
            for sizes in GROUPING {
                let mut groups = [0usize; 8];
                groups[..4].copy_from_slice(&sizes);
                decisions.push(BlockDecision {
                    sequence: WindowSequence::EightShortSequence,
                    groups,
                    group_count: 4,
                });
            }
            for d in &decisions {
                for pair in build_coding_table(&g, d).windows(2) {
                    assert!(pair[0] < pair[1] && (pair[1] - pair[0]) % 4 == 0);
                }
            }
        }
    }
}
