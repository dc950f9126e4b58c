//! What the elements of silent frames and the headers of streams say.

use crate::bits;
use crate::encoder::aac::bitstream;
use crate::encoder::aac::bitstream::Element;
use crate::encoder::aac::ics;
use crate::encoder::engine;
use crate::encoder::engine::{EncoderConfig, FrameWriter, OutputFormat};
use crate::types::{AudioObjectType, ChannelConfiguration, SamplingRate};
use vstd::arithmetic::power2::*;
use vstd::prelude::*;

verus! {

/// A gain is sent by its low eight bits.
pub proof fn law_low_byte(gain: i16)
    ensures
        0 <= bitstream::low_byte(gain) <= 255,
        (bitstream::low_byte(gain) - gain) % 256 == 0,
{
}

/// The section of a silent channel has its length as any other of a long
/// window.
pub proof fn law_silent_section_length(n: nat, rest: Seq<bool>)
    ensures
        bitstream::section_length(n, rest) == ics::length_field(n, 5, rest),
    decreases n,
{
    lemma2_to64();
    if n >= 31 {
        law_silent_section_length((n - 31) as nat, rest);
    }
}

/// A configuration without elements of its own has one for each channel, in
/// order, with tags that start over after sixteen. These are the custom one,
/// 6.1 and 22.2.
pub proof fn law_single_channels(config: ChannelConfiguration, channels: nat, c: int)
    requires
        config is CustomPce || config is SixPointOne || config is TwentyTwoPointTwo,
        channels <= usize::MAX,
        0 <= c < channels,
    ensures
        bitstream::layout(config, channels).len() == channels,
        bitstream::layout(config, channels)[c] == (Element::Single {
            tag: (c % 16) as u8,
            channel: c as usize,
        }),
{
}

/// The rest of a fill length is as many bytes of 255 as go into it, and one
/// byte for what remains.
pub proof fn law_long_fill(extra: nat, rest: Seq<bool>)
    ensures
        ({
            let s = bitstream::fill_extra(extra, rest);
            let full = extra as int / 255;
            &&& s.len() == 8 * (full + 1) + rest.len()
            &&& bits::value(s.subrange(8 * full, 8 * full + 8)) == extra as int % 255
            &&& s.skip(8 * full + 8) == rest
            &&& forall|i: int| 0 <= i < 8 * full ==> #[trigger] s[i]
        }),
    decreases extra,
{
    reveal(bits::field);
    lemma2_to64();
    let s = bitstream::fill_extra(extra, rest);
    if extra >= 255 {
        let less = (extra - 255) as nat;
        law_long_fill(less, rest);
        let t = bitstream::fill_extra(less, rest);
        let head = bits::uint(255, 8);
        bits::lemma_uint_len(255, 8);
        assert(s == head + t);
        let full = extra as int / 255;
        assert(less as int / 255 == full - 1);
        assert forall|i: int| 0 <= i < 8 * full implies #[trigger] s[i] by {
            if i < 8 {
                assert(head =~= seq![true, true, true, true, true, true, true, true]) by {
                    reveal_with_fuel(bits::uint, 9);
                }
                assert(s[i] == head[i]);
            } else {
                assert(s[i] == t[i - 8]);
            }
        }
        assert(s.subrange(8 * full, 8 * full + 8) =~= t.subrange(8 * (full - 1), 8 * full));
        assert(s.skip(8 * full + 8) =~= t.skip(8 * full));
    } else {
        let head = bits::uint(extra, 8);
        bits::lemma_uint_len(extra, 8);
        bits::lemma_value_of_uint_exact(extra, 8);
        assert(s.subrange(0, 8) =~= head);
        assert(s.skip(8) =~= rest);
    }
}

/// The header of a frame counts its own seven bytes, has no checksum, and
/// announces one block and a rate that varies.
pub proof fn law_header_of_a_frame(
    payload: nat,
    aot: AudioObjectType,
    rate: SamplingRate,
    config: ChannelConfiguration,
)
    requires
        payload + 7 <= usize::MAX,
    ensures
        ({
            let h = bitstream::frame_header(payload, aot, rate, config);
            &&& h.frame_length == payload + 7
            &&& h.protection_absent && h.crc is None
            &&& h.num_raw_data_blocks == 0
            &&& h.buffer_fullness == 0x7FF
            &&& h.mpeg_id == 0 && h.layer == 0
            &&& h.audio_object_type == aot && h.sampling_rate == rate && h.channel_config == config
        }),
{
}

/// The header of a stream describes the encoder's settings, one program at a
/// rate that varies, and nothing else.
pub proof fn law_header_of_a_stream(config: EncoderConfig)
    ensures
        ({
            let h = engine::adif_of(config);
            &&& h.bitstream_type
            &&& h.bitrate == config.bitrate_bps
            &&& h.num_program_config_elements == 1
            &&& h.configs.len() == 1
            &&& h.configs[0].audio_object_type == config.audio_object_type
            &&& h.configs[0].sampling_rate == config.sampling_rate
            &&& h.configs[0].channel_config == config.channel_config
            &&& h.configs[0].frame_length == config.frame_length
            &&& !h.configs[0].sbr_present && !h.configs[0].ps_present
            &&& h.configs[0].extension_audio_object_type is None
            &&& h.configs[0].extension_sampling_rate is None
            &&& !h.configs[0].depends_on_core_coder && h.configs[0].core_coder_delay == 0
            &&& !h.copyright_id_present && !h.original_copy && !h.home
            &&& h.buffer_fullness == 0
        }),
{
}

/// A stream with one header starts with it and goes on with bare blocks; one
/// with a header in each frame has the frame's length in bytes there.
pub proof fn law_framing(config: EncoderConfig, written: bool, block: Seq<bool>)
    requires
        block.len() % 8 == 0,
        block.len() / 8 + 7 <= usize::MAX,
    ensures
        ({
            let s = FrameWriter::framed(config, written, block);
            let head = engine::adif_of(config).encode();
            &&& config.output_format == OutputFormat::Adif && written ==> s == block
            &&& config.output_format == OutputFormat::Adif && !written ==> s.take(
                head.len() as int,
            ) == head && s.subrange(head.len() as int, (head.len() + block.len()) as int) == block
                && s.len() < head.len() + block.len() + 8
            &&& config.output_format == OutputFormat::Adts ==> s.skip(s.len() - block.len())
                == block
        }),
{
    let s = FrameWriter::framed(config, written, block);
    let head = engine::adif_of(config).encode();
    if config.output_format == OutputFormat::Adif && !written {
        assert(s.take(head.len() as int) =~= head);
        assert(s.subrange(head.len() as int, (head.len() + block.len()) as int) =~= block);
    }
    if config.output_format == OutputFormat::Adts {
        assert(s.skip(s.len() - block.len()) =~= block);
    }
}

} // verus!
