//! MPEG AudioSpecificConfig (ASC) parser and serializer.
//!
//! A configuration says what a decoder has to know before the first frame.

use crate::bits;
use crate::bitstream;
use crate::bitstream::{BitReader, BitWriter, Cursor};
use crate::error::{Error, ErrorView, FormatError, FormatErrorView, Result};
use crate::text;
use crate::types::{AudioObjectType, ChannelConfiguration, FrameLength, SamplingRate};
use vstd::arithmetic::power2::*;
use vstd::prelude::*;

verus! {

/// Parsed MPEG-4 AudioSpecificConfig (ASC).
#[derive(Debug, Clone, Copy, PartialEq, Eq, Structural)]
pub struct AudioSpecificConfig {
    pub audio_object_type: AudioObjectType,
    pub sampling_rate: SamplingRate,
    pub channel_config: ChannelConfiguration,
    pub frame_length: FrameLength,
    pub depends_on_core_coder: bool,
    pub core_coder_delay: u16,
    pub extension_audio_object_type: Option<AudioObjectType>,
    pub extension_sampling_rate: Option<SamplingRate>,
    pub sbr_present: bool,
    pub ps_present: bool,
}

pub open spec fn invalid_asc(message: Seq<char>) -> ErrorView {
    ErrorView::Format(FormatErrorView::InvalidAsc(message))
}

/// An object type number: five bits, or the escape 31 and six more.
pub open spec fn object_type_id(c: Cursor) -> (nat, Cursor) {
    let (short, c) = c.read(5);
    let (long, c) = c.read_if(short == 31, 6);
    (
        if short == 31 {
            32 + long
        } else {
            short
        },
        c,
    )
}

/// A sampling rate: an index, or the escape 15 and the rate in Hertz. The
/// reserved indices denote no rate.
pub open spec fn rate(c: Cursor) -> (nat, Option<SamplingRate>, Cursor) {
    let (index, c) = c.read(4);
    let (hz, c) = c.read_if(index == 15, 24);
    (
        index,
        if index == 15 {
            Some(SamplingRate::of_hz(hz as u32))
        } else {
            SamplingRate::at_index(index as u8)
        },
        c,
    )
}

/// The bits of an object type number, followed by `rest`.
pub open spec fn object_type_before(t: AudioObjectType, rest: Seq<bool>) -> Seq<bool> {
    let id = t.code();
    bits::field(
        if id < 31 {
            id as nat
        } else {
            31
        },
        5,
        bits::field_if(id >= 31, (id - 32) as nat, 6, rest),
    )
}

/// The bits of a sampling rate, followed by `rest`.
pub open spec fn rate_before(r: SamplingRate, rest: Seq<bool>) -> Seq<bool> {
    let index = r.index();
    bits::field(
        if index is Some {
            index->0 as nat
        } else {
            15
        },
        4,
        bits::field_if(index is None, r.in_hz() as nat, 24, rest),
    )
}

proof fn lemma_object_type_roundtrip(t: AudioObjectType, rest: Seq<bool>)
    ensures
        object_type_id(Cursor::at(object_type_before(t, rest))) == (
            t.code() as nat,
            Cursor::at(rest),
        ),
{
    broadcast use crate::bitstream::group_read;

    lemma2_to64();
    assert(t.code() < 46 && t.code() != 31);
}

proof fn lemma_rate_roundtrip(r: SamplingRate, rest: Seq<bool>)
    requires
        r is Custom ==> r.index() is None && r.in_hz() < 0x100_0000,
    ensures
        rate(Cursor::at(rate_before(r, rest))).1 == Some(r),
        rate(Cursor::at(rate_before(r, rest))).2 == Cursor::at(rest),
{
    broadcast use crate::bitstream::group_read;

    lemma2_to64();
}

impl AudioSpecificConfig {
    /// The configuration that a bit string starts with.
    pub open spec fn decode(c: Cursor) -> (AudioSpecificConfig, Cursor) {
        let (id, c) = object_type_id(c);
        let aot = AudioObjectType::of_code(id as u8);
        let c = c.fail_if(
            aot is None,
            invalid_asc("Unsupported Audio Object Type: "@ + text::decimal_text(id)),
        );
        let (index, sampling_rate, c) = rate(c);
        let c = c.fail_if(
            sampling_rate is None,
            invalid_asc("Invalid sample rate index: "@ + text::decimal_text(index)),
        );
        let (channels, c) = c.read(4);
        let c = c.fail_if(
            ChannelConfiguration::of_code(channels as u8) is None,
            invalid_asc("Invalid channel config: "@ + text::decimal_text(channels)),
        );
        let ps = aot == Some(AudioObjectType::Ps);
        let sbr = ps || aot == Some(AudioObjectType::Sbr);
        let (_, ext_rate, c) = if sbr {
            rate(c)
        } else {
            (0, None, c)
        };
        let (ext_id, c) = if sbr {
            object_type_id(c)
        } else {
            (0, c)
        };
        let (short_frame, c) = c.flag();
        let (depends, c) = c.flag();
        let (delay, c) = c.read_if(depends, 14);
        let (_, c) = c.flag();
        (
            AudioSpecificConfig {
                audio_object_type: aot->0,
                sampling_rate: sampling_rate->0,
                channel_config: ChannelConfiguration::of_code(channels as u8)->0,
                frame_length: if short_frame {
                    FrameLength::Samples960
                } else {
                    FrameLength::Samples1024
                },
                depends_on_core_coder: depends,
                core_coder_delay: delay as u16,
                extension_audio_object_type: if sbr {
                    AudioObjectType::of_code(ext_id as u8)
                } else {
                    None
                },
                extension_sampling_rate: ext_rate,
                sbr_present: sbr,
                ps_present: ps,
            },
            c,
        )
    }

    /// The bits of the configuration, followed by `rest`. The extension fields
    /// are not transmitted.
    pub open spec fn before(self, rest: Seq<bool>) -> Seq<bool> {
        let rest = bits::flag(false, rest);
        let rest = bits::field_if(
            self.depends_on_core_coder,
            self.core_coder_delay as nat,
            14,
            rest,
        );
        let rest = bits::flag(self.depends_on_core_coder, rest);
        let rest = bits::flag(
            self.frame_length == FrameLength::Samples960 || self.frame_length
                == FrameLength::Samples480,
            rest,
        );
        let rest = bits::field(self.channel_config.code() as nat, 4, rest);
        let rest = rate_before(self.sampling_rate, rest);
        object_type_before(self.audio_object_type, rest)
    }

    /// The bits of the configuration.
    pub open spec fn encode(self) -> Seq<bool> {
        self.before(Seq::empty())
    }

    fn parse_object_type_id(reader: &mut BitReader) -> (r: Result<u8>)
        ensures
            ({
                let (id, c) = object_type_id(old(reader).cursor());
                &&& final(reader)@ == c.bits
                &&& final(reader).consumed() == old(reader).position_before(c.bits)
                &&& match r {
                    Ok(x) => c.fault is None && x == id,
                    Err(e) => c.fault == Some(e@),
                }
            }),
    {
        broadcast use crate::bitstream::group_faulted;

        let mut id: u8 = reader.read_u8(5)?;
        proof {
            lemma2_to64();
        }
        if id == 31 {
            id = 32 + reader.read_u8(6)?;
        }
        Ok(id)
    }

    fn parse_rate(reader: &mut BitReader) -> (r: Result<(u8, Option<SamplingRate>)>)
        ensures
            ({
                let (index, rate, c) = rate(old(reader).cursor());
                &&& final(reader)@ == c.bits
                &&& final(reader).consumed() == old(reader).position_before(c.bits)
                &&& match r {
                    Ok(x) => c.fault is None && x.0 == index && x.1 == rate,
                    Err(e) => c.fault == Some(e@),
                }
            }),
    {
        broadcast use crate::bitstream::group_faulted;

        let index: u8 = reader.read_u8(4)?;
        if index == 15 {
            let hz: u32 = reader.read_u32(24)?;
            Ok((index, Some(SamplingRate::from_hz(hz))))
        } else {
            Ok((index, SamplingRate::from_index(index)))
        }
    }

    /// Parse an `AudioSpecificConfig` bitstream.
    pub fn parse(reader: &mut BitReader) -> (r: Result<Self>)
        ensures
            ({
                let (config, c) = Self::decode(old(reader).cursor());
                &&& final(reader)@ == c.bits
                &&& final(reader).consumed() == old(reader).position_before(c.bits)
                &&& crate::error::outcome(r) == c.settle(config)
            }),
    {
        broadcast use crate::bitstream::group_faulted;

        let aot_id: u8 = Self::parse_object_type_id(reader)?;
        let aot: AudioObjectType = match AudioObjectType::from_u8(aot_id) {
            Some(t) => t,
            None => {
                return Err(
                    Error::Format(
                        FormatError::InvalidAsc(
                            text::with_number("Unsupported Audio Object Type: ", aot_id as u64),
                        ),
                    ),
                );
            },
        };

        let (sf_index, found): (u8, Option<SamplingRate>) = Self::parse_rate(reader)?;
        let sampling_rate: SamplingRate = match found {
            Some(rate) => rate,
            None => {
                return Err(
                    Error::Format(
                        FormatError::InvalidAsc(
                            text::with_number("Invalid sample rate index: ", sf_index as u64),
                        ),
                    ),
                );
            },
        };

        let channel_config_idx: u8 = reader.read_u8(4)?;
        let channel_config: ChannelConfiguration = match ChannelConfiguration::from_u8(
            channel_config_idx,
        ) {
            Some(config) => config,
            None => {
                return Err(
                    Error::Format(
                        FormatError::InvalidAsc(
                            text::with_number("Invalid channel config: ", channel_config_idx as u64),
                        ),
                    ),
                );
            },
        };

        let mut sbr_present: bool = false;
        let mut ps_present: bool = false;
        let mut ext_aot: Option<AudioObjectType> = None;
        let mut ext_sampling_rate: Option<SamplingRate> = None;

        // Explicit SBR/PS signaling
        if aot == AudioObjectType::Sbr || aot == AudioObjectType::Ps {
            sbr_present = true;
            if aot == AudioObjectType::Ps {
                ps_present = true;
            }
            let (_ext_index, ext_rate): (u8, Option<SamplingRate>) = Self::parse_rate(reader)?;
            ext_sampling_rate = ext_rate;
            let base_aot_id: u8 = Self::parse_object_type_id(reader)?;
            ext_aot = AudioObjectType::from_u8(base_aot_id);
        }

        // GA specific config
        let frame_length_flag: bool = reader.read_bit()?;
        let frame_length: FrameLength = if frame_length_flag {
            FrameLength::Samples960
        } else {
            FrameLength::Samples1024
        };

        let depends_on_core_coder: bool = reader.read_bit()?;
        let core_coder_delay: u16 = if depends_on_core_coder {
            reader.read_u16(14)?
        } else {
            0
        };

        let _extension_flag: bool = reader.read_bit()?;

        Ok(
            Self {
                audio_object_type: aot,
                sampling_rate,
                channel_config,
                frame_length,
                depends_on_core_coder,
                core_coder_delay,
                extension_audio_object_type: ext_aot,
                extension_sampling_rate: ext_sampling_rate,
                sbr_present,
                ps_present,
            },
        )
    }

    /// Serialize this `AudioSpecificConfig` to a `BitWriter`.
    pub fn write(&self, writer: &mut BitWriter)
        ensures
            final(writer)@ == old(writer)@ + self.encode(),
    {
        broadcast use crate::bits::group_append;

        let aot_id: u8 = self.audio_object_type.as_u8();
        if aot_id < 31 {
            writer.write_u8(aot_id, 5);
        } else {
            writer.write_u8(31, 5);
            writer.write_u8(aot_id - 32, 6);
        }

        if let Some(idx) = self.sampling_rate.to_index() {
            writer.write_u8(idx, 4);
        } else {
            writer.write_u8(15, 4);
            writer.write_u32(self.sampling_rate.hz(), 24);
        }

        writer.write_u8(self.channel_config.as_u8(), 4);

        // GA specific config
        let frame_len_flag: bool = matches!(
            self.frame_length,
            FrameLength::Samples960 | FrameLength::Samples480
        );
        writer.write_bit(frame_len_flag);
        writer.write_bit(self.depends_on_core_coder);
        if self.depends_on_core_coder {
            writer.write_u16(self.core_coder_delay, 14);
        }
        writer.write_bit(false);  // extension_flag
    }

    /// Whether every field is one that the format transmits, in the place it
    /// has for it: a named rate is not spelled as `Custom`, a custom rate fits
    /// in 24 bits, the frame has 1024 or 960 samples, a delay is there only
    /// with a core coder, and nothing is said of an extension.
    pub open spec fn representable(self) -> bool {
        &&& self.audio_object_type != AudioObjectType::Sbr
        &&& self.audio_object_type != AudioObjectType::Ps
        &&& self.sampling_rate is Custom ==> self.sampling_rate.index() is None
            && self.sampling_rate.in_hz() < 0x100_0000
        &&& self.frame_length == FrameLength::Samples1024 || self.frame_length
            == FrameLength::Samples960
        &&& self.core_coder_delay < 0x4000
        &&& !self.depends_on_core_coder ==> self.core_coder_delay == 0
        &&& self.extension_audio_object_type is None
        &&& self.extension_sampling_rate is None
        &&& !self.sbr_present
        &&& !self.ps_present
    }
}

/// After a fault no configuration is read.
pub broadcast proof fn lemma_asc_faulted(c: Cursor)
    ensures
        c.fault is Some ==> (#[trigger] AudioSpecificConfig::decode(c)).1 == c,
{
    broadcast use crate::bitstream::group_faulted;

}

/// Where the bits of a configuration go is where its fields go.
pub broadcast proof fn lemma_asc_append(w: Seq<bool>, config: AudioSpecificConfig, rest: Seq<bool>)
    ensures
        #[trigger] (w + config.before(rest)) == (w + config.encode()) + rest,
{
    broadcast use crate::bits::group_append;

}

pub broadcast proof fn lemma_asc_tail(
    config: AudioSpecificConfig,
    rest: Seq<bool>,
    tail: Seq<bool>,
)
    ensures
        #[trigger] (config.before(rest) + tail) == config.before(rest + tail),
{
    broadcast use crate::bits::group_tail;

}

/// A configuration comes back unchanged from the bits it was written to,
/// whatever follows them, and the bits that follow are left alone.
pub proof fn law_asc_roundtrip(config: AudioSpecificConfig, tail: Seq<bool>)
    requires
        config.representable(),
    ensures
        AudioSpecificConfig::decode(Cursor::at(config.encode() + tail)) == (
            config,
            Cursor::at(tail),
        ),
        config.encode() + tail == config.before(tail),
{
    lemma_asc_tail(config, Seq::empty(), tail);
    assert(Seq::<bool>::empty() + tail =~= tail);
    let r0 = bits::flag(false, tail);
    let r1 = bits::field_if(config.depends_on_core_coder, config.core_coder_delay as nat, 14, r0);
    let r2 = bits::flag(config.depends_on_core_coder, r1);
    let r3 = bits::flag(config.frame_length == FrameLength::Samples960, r2);
    let r4 = bits::field(config.channel_config.code() as nat, 4, r3);
    let r5 = rate_before(config.sampling_rate, r4);
    lemma_object_type_roundtrip(config.audio_object_type, r5);
    lemma_rate_roundtrip(config.sampling_rate, r4);
    crate::types::law_audio_object_type_codes(config.audio_object_type, 0);
    crate::types::law_channel_configuration_codes(config.channel_config, 0);
    assert(config.channel_config.code() < 16);
    lemma2_to64();
    bitstream::lemma_read_field(config.channel_config.code() as nat, 4, r3);
    bitstream::lemma_read_flag(config.frame_length == FrameLength::Samples960, r2);
    bitstream::lemma_read_flag(config.depends_on_core_coder, r1);
    bitstream::lemma_read_field(config.core_coder_delay as nat, 14, r0);
    bitstream::lemma_read_flag(false, tail);
}

/// A configuration takes five bits for its object type, or eleven where the
/// type is escaped, four for its rate, or 28 where the rate has no index, seven
/// for its channels and flags, and fourteen for a delay.
pub proof fn law_asc_size(config: AudioSpecificConfig)
    ensures
        config.encode().len() == (if config.audio_object_type.code() < 31 {
            5int
        } else {
            11
        }) + (if config.sampling_rate.index() is Some {
            4int
        } else {
            28
        }) + 7 + (if config.depends_on_core_coder {
            14int
        } else {
            0
        }),
{
    broadcast use crate::bits::broadcast_uint_len;

    reveal(bits::field);
    reveal(bits::flag);
}

/// A configuration reads back from the bytes it was written to, and what is
/// left is the padding of the last byte.
pub proof fn law_asc_reads_back(config: AudioSpecificConfig, bytes: Seq<u8>)
    requires
        config.representable(),
        bits::bytes(bytes) == bits::padded(config.encode()),
    ensures
        AudioSpecificConfig::decode(Cursor::at(bits::bytes(bytes))) == (
            config,
            Cursor::at(bits::zeros(bits::padding(config.encode().len()))),
        ),
{
    law_asc_roundtrip(config, bits::zeros(bits::padding(config.encode().len())));
}

/// A rate that fits in 24 bits, given in Hertz, is one that the format
/// transmits.
pub proof fn law_rates_are_transmitted(config: AudioSpecificConfig, hz: u32)
    requires
        hz < 0x100_0000,
        config.sampling_rate == SamplingRate::of_hz(hz),
        config.audio_object_type != AudioObjectType::Sbr,
        config.audio_object_type != AudioObjectType::Ps,
        config.frame_length == FrameLength::Samples1024 || config.frame_length
            == FrameLength::Samples960,
        config.core_coder_delay < 0x4000,
        !config.depends_on_core_coder ==> config.core_coder_delay == 0,
        config.extension_audio_object_type is None,
        config.extension_sampling_rate is None,
        !config.sbr_present,
        !config.ps_present,
    ensures
        config.representable(),
{
}

} // verus!
