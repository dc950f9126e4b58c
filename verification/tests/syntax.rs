//! Transport headers and configurations.

use vuiocodecaac::bitstream::{BitReader, BitWriter};
use vuiocodecaac::error::{BitstreamError, DecodeError, Error, FormatError};
use vuiocodecaac::syntax::adif::AdifHeader;
use vuiocodecaac::syntax::adts::AdtsHeader;
use vuiocodecaac::syntax::asc::AudioSpecificConfig;
use vuiocodecaac::syntax::latm::{AudioMuxElement, StreamMuxConfig};
use vuiocodecaac::syntax::pce::ProgramConfigElement;
use vuiocodecaac::syntax::raw::RawAudioFrame;
use vuiocodecaac::types::{AudioObjectType, ChannelConfiguration, FrameLength, SamplingRate};

fn lc_config(rate: SamplingRate) -> AudioSpecificConfig {
    AudioSpecificConfig {
        audio_object_type: AudioObjectType::AacLc,
        sampling_rate: rate,
        channel_config: ChannelConfiguration::Stereo,
        frame_length: FrameLength::Samples1024,
        depends_on_core_coder: false,
        core_coder_delay: 0,
        extension_audio_object_type: None,
        extension_sampling_rate: None,
        sbr_present: false,
        ps_present: false,
    }
}

fn adts_header() -> AdtsHeader {
    AdtsHeader {
        mpeg_id: 0,
        layer: 0,
        protection_absent: true,
        audio_object_type: AudioObjectType::AacLc,
        sampling_rate: SamplingRate::Hz44100,
        channel_config: ChannelConfiguration::Stereo,
        frame_length: 350,
        buffer_fullness: 0x7FF,
        num_raw_data_blocks: 0,
        crc: None,
    }
}

#[test]
fn test_adif_header_roundtrip() {
    let config = lc_config(SamplingRate::Hz44100);

    let header = AdifHeader {
        copyright_id_present: false,
        copyright_id: [0u8; 9],
        original_copy: true,
        home: false,
        bitstream_type: true,
        bitrate: 128000,
        num_program_config_elements: 1,
        buffer_fullness: 0,
        configs: vec![config],
    };

    let mut writer = BitWriter::with_capacity(64);
    header.write(&mut writer);
    let bytes = writer.finalize();

    let mut reader = BitReader::new(bytes);
    let parsed = AdifHeader::parse(&mut reader).unwrap();

    assert_eq!(header.bitrate, parsed.bitrate);
    assert_eq!(header.num_program_config_elements, parsed.num_program_config_elements);
    assert_eq!(header, parsed);
}

#[test]
fn test_adts_header_roundtrip() {
    let header = adts_header();

    let mut writer = BitWriter::new();
    header.write(&mut writer);
    let bytes = writer.finalize();

    assert_eq!(bytes.len(), 7);
    let mut reader = BitReader::new(bytes);
    let parsed = AdtsHeader::parse(&mut reader).unwrap();
    assert_eq!(header, parsed);
}

#[test]
fn test_asc_roundtrip() {
    let asc = lc_config(SamplingRate::Hz48000);

    let mut writer = BitWriter::new();
    asc.write(&mut writer);
    let bytes = writer.finalize();

    let mut reader = BitReader::new(bytes);
    let parsed = AudioSpecificConfig::parse(&mut reader).unwrap();
    assert_eq!(asc, parsed);
}

#[test]
fn test_loas_roundtrip() {
    let asc = lc_config(SamplingRate::Hz48000);

    let config = StreamMuxConfig {
        audio_mux_version: 0,
        all_streams_same_time_framing: true,
        num_sub_frames: 1,
        num_programs: 1,
        num_layers: 1,
        asc,
    };

    let elem = AudioMuxElement {
        mux_config_present: true,
        stream_mux_config: Some(config),
        payload_bytes: vec![0x11, 0x22, 0x33, 0x44],
    };

    let mut writer = BitWriter::with_capacity(64);
    elem.write_loas(&mut writer);
    let bytes = writer.finalize();

    let mut reader = BitReader::new(bytes);
    let parsed = AudioMuxElement::parse_loas(&mut reader).unwrap();

    assert_eq!(parsed.mux_config_present, true);
    assert_eq!(parsed.payload_bytes.len(), 4);
    assert_eq!(parsed, elem);
}

#[test]
fn test_pce_roundtrip() {
    let pce = ProgramConfigElement {
        element_instance_tag: 0,
        object_type: AudioObjectType::AacLc,
        sampling_rate: SamplingRate::Hz44100,
        num_front_channel_elements: 1,
        num_side_channel_elements: 0,
        num_back_channel_elements: 0,
        num_lfe_channel_elements: 0,
        num_assoc_data_elements: 0,
        num_valid_cc_elements: 0,
        mono_mixdown_present: false,
        mono_mixdown_element_number: 0,
        stereo_mixdown_present: false,
        stereo_mixdown_element_number: 0,
        matrix_mixdown_idx_present: false,
        matrix_mixdown_idx: 0,
        pseudo_surround_enable: false,
        front_elements: vec![(true, 0)],
        side_elements: vec![],
        back_elements: vec![],
        lfe_element_tags: vec![],
    };

    let mut writer = BitWriter::with_capacity(32);
    pce.write(&mut writer);
    let bytes = writer.finalize();

    let mut reader = BitReader::new(bytes);
    let parsed = ProgramConfigElement::parse(&mut reader).unwrap();

    assert_eq!(pce.element_instance_tag, parsed.element_instance_tag);
    assert_eq!(pce.front_elements.len(), parsed.front_elements.len());
    assert_eq!(pce, parsed);
}

#[test]
fn an_adts_header_is_these_seven_bytes() {
    let mut writer = BitWriter::new();
    adts_header().write(&mut writer);
    assert_eq!(writer.finalize(), &[0xFF, 0xF1, 0x50, 0x80, 0x2B, 0xDF, 0xFC]);
}

#[test]
fn an_adts_header_knows_its_sizes() {
    let mut header = adts_header();
    assert_eq!(header.header_size(), 7);
    assert_eq!(header.payload_size(), 343);
    header.protection_absent = false;
    header.crc = Some(0x1234);
    assert_eq!(header.header_size(), 9);
    assert_eq!(header.payload_size(), 341);

    let mut writer = BitWriter::new();
    header.write(&mut writer);
    let bytes = writer.into_bytes();
    assert_eq!(bytes.len(), 9);
    let mut reader = BitReader::new(&bytes);
    assert_eq!(AdtsHeader::parse(&mut reader).unwrap(), header);
}

#[test]
fn a_wrong_adts_syncword_is_reported() {
    let bytes = [0x12u8, 0x34, 0x56, 0x78, 0x9A, 0xBC, 0xDE];
    let mut reader = BitReader::new(&bytes);
    match AdtsHeader::parse(&mut reader) {
        Err(Error::Format(FormatError::InvalidAdts(text))) => {
            assert_eq!(text, "Invalid ADTS syncword: 0x123 (expected 0x0FFF)");
        }
        other => panic!("unexpected: {other:?}"),
    }
}

#[test]
fn a_truncated_header_is_reported() {
    let bytes = [0xFFu8, 0xF1];
    let mut reader = BitReader::new(&bytes);
    assert!(matches!(
        AdtsHeader::parse(&mut reader),
        Err(Error::Bitstream(BitstreamError::UnexpectedEof { .. }))
    ));
}

#[test]
fn a_config_of_low_complexity_stereo_at_44100_is_these_bytes() {
    let mut writer = BitWriter::new();
    lc_config(SamplingRate::Hz44100).write(&mut writer);
    assert_eq!(&writer.finalize()[..2], &[0x12, 0x10]);
}

#[test]
fn a_config_with_a_rate_of_its_own_round_trips() {
    let mut asc = lc_config(SamplingRate::Custom(12_345));
    asc.depends_on_core_coder = true;
    asc.core_coder_delay = 777;
    let mut writer = BitWriter::new();
    asc.write(&mut writer);
    let bytes = writer.into_bytes();
    let mut reader = BitReader::new(&bytes);
    assert_eq!(AudioSpecificConfig::parse(&mut reader).unwrap(), asc);
}

#[test]
fn a_config_with_a_reserved_rate_is_refused() {
    // Object type 2, sampling frequency index 13.
    let bytes = [0x16u8, 0x90, 0x00];
    let mut reader = BitReader::new(&bytes);
    assert!(AudioSpecificConfig::parse(&mut reader).is_err());
}

#[test]
fn a_file_without_the_right_id_is_no_adif_file() {
    let bytes = [0x41u8, 0x44, 0x49, 0x58, 0, 0, 0, 0];
    let mut reader = BitReader::new(&bytes);
    assert!(matches!(
        AdifHeader::parse(&mut reader),
        Err(Error::Format(FormatError::InvalidAdif(_)))
    ));
}

#[test]
fn a_wrong_loas_syncword_is_reported() {
    let bytes = [0u8; 8];
    let mut reader = BitReader::new(&bytes);
    assert!(AudioMuxElement::parse_loas(&mut reader).is_err());
}

#[test]
fn a_raw_frame_hands_back_its_parts() {
    let config = lc_config(SamplingRate::Hz32000);
    let frame = RawAudioFrame::new(config, vec![1, 2, 3]);
    assert_eq!(frame.data(), &[1, 2, 3]);
    assert_eq!(*frame.config(), config);
}

#[test]
fn fields_come_back_in_the_order_they_were_written() {
    let mut writer = BitWriter::new();
    writer.write_bit(true);
    writer.write_bits(0x155, 10);
    writer.write_u16(0xABC, 12);
    writer.write_u32(5, 3);
    assert_eq!(writer.bits_written(), 26);
    writer.byte_align_zero();
    assert_eq!(writer.bits_written(), 32);
    let bytes = writer.into_bytes();
    let mut reader = BitReader::new(&bytes);
    assert!(reader.read_bit().unwrap());
    assert_eq!(reader.read_bits(10).unwrap(), 0x155);
    assert_eq!(reader.read_u16(12).unwrap(), 0xABC);
    assert_eq!(reader.read_u32(3).unwrap(), 5);
    assert_eq!(reader.bit_position(), 26);
    reader.skip_bits(6).unwrap();
    assert_eq!(reader.bits_remaining(), 0);
}

#[test]
fn a_field_of_more_than_64_bits_is_refused() {
    let bytes = [0u8; 16];
    let mut reader = BitReader::new(&bytes);
    assert!(matches!(
        reader.read_bits(65),
        Err(Error::Bitstream(BitstreamError::InvalidBitCount(65)))
    ));
    assert_eq!(reader.bit_position(), 0);
}

#[test]
fn errors_of_the_decoder_can_be_told_apart() {
    assert_ne!(
        DecodeError::InvalidAudioObjectType(3),
        DecodeError::InvalidChannelConfiguration(3)
    );
}

fn element(mono: bool, stereo: bool, matrix: bool, counts: [usize; 4]) -> ProgramConfigElement {
    let list = |n: usize| -> Vec<(bool, u8)> { (0..n).map(|i| (i % 2 == 0, i as u8)).collect() };
    ProgramConfigElement {
        element_instance_tag: 3,
        object_type: AudioObjectType::AacLc,
        sampling_rate: SamplingRate::Hz48000,
        num_front_channel_elements: counts[0] as u8,
        num_side_channel_elements: counts[1] as u8,
        num_back_channel_elements: counts[2] as u8,
        num_lfe_channel_elements: counts[3] as u8,
        num_assoc_data_elements: 1,
        num_valid_cc_elements: 2,
        mono_mixdown_present: mono,
        mono_mixdown_element_number: if mono { 5 } else { 0 },
        stereo_mixdown_present: stereo,
        stereo_mixdown_element_number: if stereo { 6 } else { 0 },
        matrix_mixdown_idx_present: matrix,
        matrix_mixdown_idx: if matrix { 2 } else { 0 },
        pseudo_surround_enable: matrix,
        front_elements: list(counts[0]),
        side_elements: list(counts[1]),
        back_elements: list(counts[2]),
        lfe_element_tags: (0..counts[3]).map(|i| i as u8).collect(),
    }
}

/// 34 bits, four for each mixdown number, three for a matrix, five for each
/// channel element and four for each low frequency element.
#[test]
fn a_program_config_element_takes_its_size() {
    for (mono, stereo, matrix, counts, bits) in [
        (false, false, false, [0, 0, 0, 0], 34),
        (true, false, false, [1, 0, 0, 0], 43),
        (false, true, true, [2, 1, 1, 1], 65),
        (true, true, true, [15, 15, 15, 3], 282),
    ] {
        let pce = element(mono, stereo, matrix, counts);
        let mut writer = BitWriter::new();
        writer.write_bits(0b101, 3);
        pce.write(&mut writer);
        assert_eq!(writer.bits_written(), 3 + bits);
        writer.write_bits(0x5a, 8);
        let bytes = writer.into_bytes();
        let mut reader = BitReader::new(&bytes);
        reader.skip_bits(3).unwrap();
        assert_eq!(ProgramConfigElement::parse(&mut reader).unwrap(), pce);
        assert_eq!(reader.bit_position(), 3 + bits);
        assert_eq!(reader.read_u8(8).unwrap(), 0x5a);
    }
}

/// A reader stands behind what it has read, wherever it came from.
#[test]
fn headers_move_the_reader_by_their_length() {
    let config = lc_config(SamplingRate::Hz44100);
    let mut other = lc_config(SamplingRate::Custom(12_345));
    other.depends_on_core_coder = true;
    other.core_coder_delay = 99;
    let mux = StreamMuxConfig {
        audio_mux_version: 0,
        all_streams_same_time_framing: true,
        num_sub_frames: 1,
        num_programs: 1,
        num_layers: 1,
        asc: config,
    };
    let adif = AdifHeader {
        copyright_id_present: true,
        copyright_id: [7u8; 9],
        original_copy: true,
        home: false,
        bitstream_type: false,
        bitrate: 128_000,
        num_program_config_elements: 2,
        buffer_fullness: 77,
        configs: vec![config, other],
    };
    let mut crc = adts_header();
    crc.protection_absent = false;
    crc.crc = Some(0x1234);

    let mut writer = BitWriter::new();
    writer.write_bit(true);
    adts_header().write(&mut writer);
    crc.write(&mut writer);
    config.write(&mut writer);
    other.write(&mut writer);
    mux.write(&mut writer);
    adif.write(&mut writer);
    let total = writer.bits_written();
    let bytes = writer.into_bytes();

    let mut reader = BitReader::new(&bytes);
    reader.read_bit().unwrap();
    AdtsHeader::parse(&mut reader).unwrap();
    assert_eq!(reader.bit_position(), 57);
    AdtsHeader::parse(&mut reader).unwrap();
    assert_eq!(reader.bit_position(), 57 + 72);
    AudioSpecificConfig::parse(&mut reader).unwrap();
    assert_eq!(reader.bit_position(), 129 + 16);
    AudioSpecificConfig::parse(&mut reader).unwrap();
    assert_eq!(reader.bit_position(), 145 + 54);
    StreamMuxConfig::parse(&mut reader).unwrap();
    assert_eq!(reader.bit_position(), 199 + 15 + 16);
    AdifHeader::parse(&mut reader).unwrap();
    assert_eq!(reader.bit_position(), 230 + 63 + 72 + 20 + 16 + 54);
    assert_eq!(reader.bit_position(), total);

    // A refused header leaves the reader behind its syncword.
    let mut reader = BitReader::new(&[0u8; 9]);
    assert!(AdtsHeader::parse(&mut reader).is_err());
    assert_eq!(reader.bit_position(), 12);
    let mut reader = BitReader::new(&[0u8; 9]);
    assert!(AudioMuxElement::parse_loas(&mut reader).is_err());
    assert_eq!(reader.bit_position(), 11);
    // And one that is cut short, behind the last field that was there.
    let mut reader = BitReader::new(&bytes[..5]);
    reader.read_bit().unwrap();
    assert!(AdtsHeader::parse(&mut reader).is_err());
    assert_eq!(reader.bit_position(), 31);
}

/// 25 bits, those of the configuration, and the payload.
#[test]
fn a_packet_takes_its_size() {
    let packet = AudioMuxElement {
        mux_config_present: false,
        stream_mux_config: None,
        payload_bytes: vec![1, 2, 3],
    };
    let mut writer = BitWriter::new();
    packet.write_loas(&mut writer);
    assert_eq!(writer.bits_written(), 25 + 24);
}
