//! Types and tables.

use vuiocodecaac::tables::scalefactor::{compute_sfb_offsets, get_sfb_table, SFB_48_1024};
use vuiocodecaac::tables::tns::tns_max_band;
use vuiocodecaac::types::{
    AudioObjectType, ChannelConfiguration, FrameLength, SamplingRate, WindowSequence, WindowShape,
};

#[test]
fn test_sfb_offsets_sum() {
    let mut offsets = [0usize; 64];
    let num_offsets = compute_sfb_offsets(&SFB_48_1024, &mut offsets);
    assert_eq!(num_offsets, SFB_48_1024.len() + 1);
    assert_eq!(offsets[num_offsets - 1], 1024);
}

#[test]
fn every_long_table_covers_the_window() {
    for index in 0..13u8 {
        let rate = SamplingRate::from_index(index).unwrap();
        let widths = get_sfb_table(rate, false, FrameLength::Samples1024);
        assert_eq!(widths.iter().map(|w| *w as usize).sum::<usize>(), 1024, "{rate:?}");
        let widths = get_sfb_table(rate, true, FrameLength::Samples1024);
        assert_eq!(widths.iter().map(|w| *w as usize).sum::<usize>(), 128, "{rate:?}");
    }
}

#[test]
fn every_frame_length_has_its_tables() {
    let lengths = [
        (FrameLength::Samples1024, 1024, Some(128)),
        (FrameLength::Samples960, 960, Some(120)),
        (FrameLength::Samples512, 512, None),
        (FrameLength::Samples480, 480, None),
    ];
    for index in 0..13u8 {
        let rate = SamplingRate::from_index(index).unwrap();
        for (length, long, short) in lengths {
            assert_eq!((length.samples(), length.short_samples()), (long, long / 8));
            let total = |is_short: bool| -> usize {
                get_sfb_table(rate, is_short, length).iter().map(|w| *w as usize).sum()
            };
            assert_eq!(total(false), long, "{rate:?} {length:?}");
            if let Some(short) = short {
                assert_eq!(total(true), short, "{rate:?} {length:?}");
            } else {
                assert_eq!(get_sfb_table(rate, true, length), SFB_48_1024);
            }
        }
        for short in [false, true] {
            assert_eq!(get_sfb_table(rate, short, FrameLength::Samples768), SFB_48_1024);
        }
    }
    let bands = |rate: SamplingRate, length: FrameLength| get_sfb_table(rate, false, length).len();
    assert_eq!(bands(SamplingRate::Hz48000, FrameLength::Samples512), 36);
    assert_eq!(bands(SamplingRate::Hz32000, FrameLength::Samples512), 37);
    assert_eq!(bands(SamplingRate::Hz24000, FrameLength::Samples512), 31);
    assert_eq!(bands(SamplingRate::Hz44100, FrameLength::Samples480), 35);
    assert_eq!(bands(SamplingRate::Hz32000, FrameLength::Samples480), 37);
    assert_eq!(bands(SamplingRate::Hz22050, FrameLength::Samples480), 30);
}

#[test]
fn rates_and_indices_are_inverse() {
    for index in 0..13u8 {
        let rate = SamplingRate::from_index(index).unwrap();
        assert_eq!(rate.to_index(), Some(index));
        assert_eq!(SamplingRate::from_hz(rate.hz()), rate);
    }
    assert_eq!(SamplingRate::from_index(13), None);
    assert_eq!(SamplingRate::Hz44100.hz(), 44_100);
    assert_eq!(SamplingRate::from_hz(12_345), SamplingRate::Custom(12_345));
    assert_eq!(SamplingRate::Custom(12_345).to_index(), None);
    assert_eq!(SamplingRate::Hz44100.to_text(), "44100 Hz");
}

#[test]
fn object_types_and_numbers_are_inverse() {
    for number in 0..=255u8 {
        if let Some(t) = AudioObjectType::from_u8(number) {
            assert_eq!(t.as_u8(), number);
        }
    }
    assert_eq!(AudioObjectType::from_u8(2), Some(AudioObjectType::AacLc));
    assert_eq!(AudioObjectType::from_u8(42), Some(AudioObjectType::Usac));
    assert!(AudioObjectType::Usac.is_usac());
    assert!(!AudioObjectType::AacLc.is_usac());
}

#[test]
fn channel_configurations_count_their_channels() {
    let channels: Vec<usize> =
        (0..=7).map(|n| ChannelConfiguration::from_u8(n).unwrap().channels()).collect();
    assert_eq!(channels, vec![0, 1, 2, 3, 4, 5, 6, 8]);
}

#[test]
fn eight_short_windows_make_up_a_short_frame() {
    assert_eq!(WindowSequence::EightShortSequence.num_windows(), 8);
    assert_eq!(WindowSequence::OnlyLongSequence.num_windows(), 1);
    assert!(WindowSequence::EightShortSequence.is_eight_short());
    for n in 0..4u8 {
        assert_eq!(WindowSequence::from_u8(n).unwrap().as_u8(), n);
    }
    assert_eq!(WindowShape::from_u8(0), Some(WindowShape::Sine));
    assert_eq!(FrameLength::Samples1024.samples(), 1024);
    assert_eq!(FrameLength::Samples1024.short_samples(), 128);
}

#[test]
fn every_band_divides_into_tuples() {
    for index in 0..13u8 {
        let rate = SamplingRate::from_index(index).unwrap();
        for length in [
            FrameLength::Samples1024,
            FrameLength::Samples960,
            FrameLength::Samples768,
            FrameLength::Samples512,
            FrameLength::Samples480,
        ] {
            for short in [false, true] {
                let widths = get_sfb_table(rate, short, length);
                assert!(widths.iter().all(|w| *w > 0 && w % 4 == 0), "{rate:?} {length:?}");
            }
        }
    }
}

#[test]
fn noise_shaping_ends_at_the_band_of_its_rate() {
    assert_eq!(tns_max_band(SamplingRate::Hz96000, false), 31);
    assert_eq!(tns_max_band(SamplingRate::Hz96000, true), 9);
    assert_eq!(tns_max_band(SamplingRate::Hz44100, false), 42);
    assert_eq!(tns_max_band(SamplingRate::Hz32000, false), 51);
    assert_eq!(tns_max_band(SamplingRate::Hz8000, false), 39);
    assert_eq!(tns_max_band(SamplingRate::from_index(12).unwrap(), false), 39);
    assert_eq!(tns_max_band(SamplingRate::Custom(12_345), false), 42);
    assert_eq!(tns_max_band(SamplingRate::Custom(12_345), true), 14);
}
