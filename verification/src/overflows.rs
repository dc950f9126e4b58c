//! What the writers make of values that a format has no place for.
//!
//! A number that is too large for its field is sent by its low bits, and what
//! has no code is sent as something that has one.

use crate::bits;
use crate::layouts;
use crate::syntax::adif::AdifHeaderView;
use crate::syntax::adts::AdtsHeader;
use crate::syntax::asc::AudioSpecificConfig;
use crate::syntax::latm::{AudioMuxElementView, StreamMuxConfig};
use crate::syntax::pce::ProgramConfigElementView;
use crate::types::FrameLength;
use vstd::arithmetic::power2::*;
use vstd::prelude::*;

verus! {

/// Any ADTS header. A rate without an index is sent as 44100 Hz, an object
/// type as one less where it can be, and the bits that nothing is known of as
/// zero. A checksum is sent where there is one.
pub proof fn law_any_adts_header(h: AdtsHeader)
    ensures
        ({
            let s = h.encode();
            let code = h.audio_object_type.code() as int;
            &&& layouts::number_at(s, 0, 12) == 0xfff
            &&& layouts::number_at(s, 12, 1) == h.mpeg_id as int % 2
            &&& layouts::number_at(s, 13, 2) == h.layer as int % 4
            &&& layouts::bit_at(s, 15) == h.protection_absent
            &&& layouts::number_at(s, 16, 2) == if code == 0 {
                0
            } else {
                (code - 1) % 4
            }
            &&& layouts::number_at(s, 18, 4) == match h.sampling_rate.index() {
                Some(i) => i as int,
                None => 4,
            }
            &&& !layouts::bit_at(s, 22)
            &&& layouts::number_at(s, 23, 3) == h.channel_config.code() as int % 8
            &&& !layouts::bit_at(s, 26) && !layouts::bit_at(s, 27) && !layouts::bit_at(s, 28)
                && !layouts::bit_at(s, 29)
            &&& layouts::number_at(s, 30, 13) == h.frame_length as int % 8192
            &&& layouts::number_at(s, 43, 11) == h.buffer_fullness as int % 2048
            &&& layouts::number_at(s, 54, 2) == h.num_raw_data_blocks as int % 4
            &&& h.crc matches Some(x) ==> layouts::number_at(s, 56, 16) == x
            &&& s.len() == if h.crc is Some {
                72int
            } else {
                56
            }
        }),
{
    broadcast use {layouts::lemma_at_field, layouts::lemma_at_flag};

    lemma2_to64();
    assert(h.sampling_rate.index() matches Some(i) ==> i <= 12);
    assert(h.encode().len() == if h.crc is Some {
        72int
    } else {
        56
    }) by {
        reveal(bits::field);
        reveal(bits::flag);
        broadcast use bits::broadcast_uint_len;

    }
}

/// Any decoder configuration. Frames of 480 samples are sent as shorter ones
/// too; the extension is not sent.
pub proof fn law_any_configuration(c: AudioSpecificConfig)
    ensures
        ({
            let s = c.encode();
            let code = c.audio_object_type.code();
            let t = if code < 31 { 5int } else { 11 };
            let r = t + if c.sampling_rate.index() is Some { 4int } else { 28 };
            &&& code < 31 ==> layouts::number_at(s, 0, 5) == code
            &&& c.sampling_rate.index() matches Some(i) ==> layouts::number_at(s, t, 4) == i
            &&& c.sampling_rate.index() is None ==> layouts::number_at(s, t, 4) == 15
                && layouts::number_at(s, t + 4, 24) == c.sampling_rate.in_hz() as int % 0x100_0000
            &&& layouts::number_at(s, r, 4) == c.channel_config.code()
            &&& layouts::bit_at(s, r + 4) == (c.frame_length == FrameLength::Samples960
                || c.frame_length == FrameLength::Samples480)
            &&& layouts::bit_at(s, r + 5) == c.depends_on_core_coder
            &&& c.depends_on_core_coder ==> layouts::number_at(s, r + 6, 14)
                == c.core_coder_delay as int % 0x4000
            &&& !layouts::bit_at(s, r + if c.depends_on_core_coder { 20int } else { 6 })
            &&& s.len() == r + if c.depends_on_core_coder { 21int } else { 7 }
        }),
{
    broadcast use {layouts::lemma_at_field, layouts::lemma_at_flag};

    lemma2_to64();
    assert(c.channel_config.code() < 16);
    assert(c.audio_object_type.code() < 46 && c.audio_object_type.code() != 31);
    assert(c.sampling_rate.index() matches Some(i) ==> i <= 12);
    let code = c.audio_object_type.code();
    let t = if code < 31 { 5int } else { 11 };
    let r = t + if c.sampling_rate.index() is Some { 4int } else { 28 };
    assert(c.encode().len() == r + if c.depends_on_core_coder { 21int } else { 7 }) by {
        reveal(bits::field);
        reveal(bits::flag);
        broadcast use bits::broadcast_uint_len;

    }
}

/// Any multiplex configuration. A count of zero is sent as one.
pub proof fn law_any_multiplex_configuration(c: StreamMuxConfig)
    ensures
        ({
            let s = c.encode();
            &&& layouts::number_at(s, 0, 1) == c.audio_mux_version as int % 2
            &&& layouts::bit_at(s, 1) == c.all_streams_same_time_framing
            &&& layouts::number_at(s, 2, 6) == if c.num_sub_frames == 0 {
                0
            } else {
                (c.num_sub_frames - 1) % 64
            }
            &&& layouts::number_at(s, 8, 4) == if c.num_programs == 0 {
                0
            } else {
                (c.num_programs - 1) % 16
            }
            &&& layouts::number_at(s, 12, 3) == if c.num_layers == 0 {
                0
            } else {
                (c.num_layers - 1) % 8
            }
        }),
{
    broadcast use {layouts::lemma_at_field, layouts::lemma_at_flag};

    lemma2_to64();
}

/// Any packet. Its length goes by what it says of its configuration, the bits
/// behind it by whether there is one.
pub proof fn law_any_packet(e: AudioMuxElementView)
    ensures
        ({
            let s = e.encode();
            let n = e.payload_bytes.len() as int + if e.mux_config_present { 4int } else { 1 };
            &&& layouts::number_at(s, 0, 11) == 0x2b7
            &&& layouts::number_at(s, 11, 13) == n % 8192
            &&& layouts::bit_at(s, 24) == e.mux_config_present
            &&& e.stream_mux_config is None ==> s.skip(25) == bits::bytes(e.payload_bytes)
            &&& e.stream_mux_config matches Some(c) ==> s.skip(25) == c.encode() + bits::bytes(
                e.payload_bytes,
            )
        }),
{
    broadcast use {layouts::lemma_at_field, layouts::lemma_at_flag};

    lemma2_to64();
    let s = e.encode();
    let none = Seq::<bool>::empty();
    let bytes = bits::bytes(e.payload_bytes);
    assert(bytes + none =~= bytes);
    let rest = match e.stream_mux_config {
        Some(c) => c.before(bytes),
        None => bytes,
    };
    assert(s.skip(25) =~= rest) by {
        reveal(bits::field);
        reveal(bits::flag);
        broadcast use bits::broadcast_uint_len;

    }
    if let Some(c) = e.stream_mux_config {
        crate::syntax::latm::lemma_mux_tail(c, none, bytes);
        assert(none + bytes =~= bytes);
    }
}

/// Any program config element, up to its first flag. A rate without an index
/// is sent as 44100 Hz, an object type as one less where it can be.
pub proof fn law_any_program(p: ProgramConfigElementView)
    ensures
        ({
            let s = p.encode();
            let code = p.object_type.code() as int;
            &&& layouts::number_at(s, 0, 4) == p.element_instance_tag as int % 16
            &&& layouts::number_at(s, 4, 2) == if code == 0 {
                0
            } else {
                (code - 1) % 4
            }
            &&& layouts::number_at(s, 6, 4) == match p.sampling_rate.index() {
                Some(i) => i as int,
                None => 4,
            }
            &&& layouts::number_at(s, 10, 4) == p.num_front_channel_elements as int % 16
            &&& layouts::number_at(s, 14, 4) == p.num_side_channel_elements as int % 16
            &&& layouts::number_at(s, 18, 4) == p.num_back_channel_elements as int % 16
            &&& layouts::number_at(s, 22, 2) == p.num_lfe_channel_elements as int % 4
            &&& layouts::number_at(s, 24, 3) == p.num_assoc_data_elements as int % 8
            &&& layouts::number_at(s, 27, 4) == p.num_valid_cc_elements as int % 16
            &&& layouts::bit_at(s, 31) == p.mono_mixdown_present
        }),
{
    broadcast use {layouts::lemma_at_field, layouts::lemma_at_flag};

    lemma2_to64();
    assert(p.sampling_rate.index() matches Some(i) ==> i <= 12);
}

/// Any ADIF header without an identification. A count of zero is sent as one.
pub proof fn law_any_adif_header(h: AdifHeaderView)
    requires
        !h.copyright_id_present,
    ensures
        ({
            let s = h.encode();
            let n = h.num_program_config_elements as int;
            &&& layouts::number_at(s, 0, 32) == 0x41444946
            &&& !layouts::bit_at(s, 32)
            &&& layouts::bit_at(s, 33) == h.original_copy
            &&& layouts::bit_at(s, 34) == h.home
            &&& layouts::bit_at(s, 35) == h.bitstream_type
            &&& layouts::number_at(s, 36, 23) == h.bitrate as int % 0x80_0000
            &&& layouts::number_at(s, 59, 4) == if n == 0 {
                0
            } else {
                (n - 1) % 16
            }
            &&& !h.bitstream_type ==> layouts::number_at(s, 63, 20) == h.buffer_fullness as int
                % 0x10_0000
        }),
{
    broadcast use {layouts::lemma_at_field, layouts::lemma_at_flag};

    lemma2_to64();
    lemma2_to64_rest();
}

} // verus!
