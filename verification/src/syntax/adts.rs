//! Audio Data Transport Stream (ADTS) header parsing and serialization.
//!
//! A header stands in front of every frame and says how long the frame is.

use crate::bits;
use crate::bitstream;
use crate::bitstream::{BitReader, BitWriter, Cursor};
use crate::error::{Error, ErrorView, FormatError, FormatErrorView, Result};
use crate::text;
use crate::types::{AudioObjectType, ChannelConfiguration, SamplingRate};
use vstd::arithmetic::power2::*;
use vstd::prelude::*;

verus! {

pub const ADTS_SYNCWORD: u16 = 0x0FFF;

pub const ADTS_HEADER_SIZE_NO_CRC: usize = 7;

pub const ADTS_HEADER_SIZE_CRC: usize = 9;

/// Parsed ADTS frame header (fixed + variable header fields).
#[derive(Debug, Clone, Copy, PartialEq, Eq, Structural)]
pub struct AdtsHeader {
    /// MPEG ID (0 for MPEG-4, 1 for MPEG-2).
    pub mpeg_id: u8,
    /// Layer (always 0 in AAC).
    pub layer: u8,
    /// Protection absent (1 if no CRC-16, 0 if 16-bit CRC follows header).
    pub protection_absent: bool,
    /// Audio Object Type (derived from profile + 1).
    pub audio_object_type: AudioObjectType,
    /// Sampling rate.
    pub sampling_rate: SamplingRate,
    /// Channel configuration.
    pub channel_config: ChannelConfiguration,
    /// Total frame length in bytes including header and CRC.
    pub frame_length: usize,
    /// ADTS buffer fullness (0x7FF for VBR).
    pub buffer_fullness: u16,
    /// Number of raw data blocks in frame minus 1 (0 means 1 block/frame).
    pub num_raw_data_blocks: u8,
    /// Optional 16-bit CRC checksum if `protection_absent` is false.
    pub crc: Option<u16>,
}

pub open spec fn invalid_adts(message: Seq<char>) -> ErrorView {
    ErrorView::Format(FormatErrorView::InvalidAdts(message))
}

/// The value of an option, or `d` where it has none.
pub open spec fn value_or<T>(x: Option<T>, d: T) -> T {
    match x {
        Some(v) => v,
        None => d,
    }
}

impl AdtsHeader {
    /// The header that a bit string starts with.
    pub open spec fn decode(c: Cursor) -> (AdtsHeader, Cursor) {
        let (sync, c) = c.read(12);
        let c = c.fail_if(
            sync != ADTS_SYNCWORD,
            invalid_adts(
                "Invalid ADTS syncword: "@ + text::hex_text(sync, 3) + " (expected 0x0FFF)"@,
            ),
        );
        let (mpeg_id, c) = c.read(1);
        let (layer, c) = c.read(2);
        let (protection_absent, c) = c.flag();
        let (profile, c) = c.read(2);
        let (rate, c) = c.read(4);
        let c = c.fail_if(
            SamplingRate::at_index(rate as u8) is None,
            invalid_adts("Invalid sampling frequency index: "@ + text::decimal_text(rate)),
        );
        let (_, c) = c.flag();
        let (channels, c) = c.read(3);
        let (_, c) = c.flag();
        let (_, c) = c.flag();
        let (_, c) = c.flag();
        let (_, c) = c.flag();
        let (frame_length, c) = c.read(13);
        let (buffer_fullness, c) = c.read(11);
        let (blocks, c) = c.read(2);
        let (crc, c) = c.read_if(!protection_absent, 16);
        (
            AdtsHeader {
                mpeg_id: mpeg_id as u8,
                layer: layer as u8,
                protection_absent,
                audio_object_type: value_or(
                    AudioObjectType::of_code((profile + 1) as u8),
                    AudioObjectType::AacLc,
                ),
                sampling_rate: SamplingRate::at_index(rate as u8)->0,
                channel_config: ChannelConfiguration::of_code(channels as u8)->0,
                frame_length: frame_length as usize,
                buffer_fullness: buffer_fullness as u16,
                num_raw_data_blocks: blocks as u8,
                crc: if protection_absent {
                    None
                } else {
                    Some(crc as u16)
                },
            },
            c,
        )
    }

    /// The bits of the header, followed by `rest`.
    pub open spec fn before(self, rest: Seq<bool>) -> Seq<bool> {
        let code = self.audio_object_type.code();
        let rest = bits::field_if(self.crc is Some, self.crc->0 as nat, 16, rest);
        let rest = bits::field(self.num_raw_data_blocks as nat, 2, rest);
        let rest = bits::field(self.buffer_fullness as nat, 11, rest);
        let rest = bits::field(self.frame_length as nat, 13, rest);
        let rest = bits::flag(false, bits::flag(false, bits::flag(false, bits::flag(false, rest))));
        let rest = bits::field(self.channel_config.code() as nat, 3, rest);
        let rest = bits::flag(false, rest);
        let rest = bits::field(value_or(self.sampling_rate.index(), 4) as nat, 4, rest);
        let rest = bits::field(
            if code == 0 {
                0
            } else {
                (code - 1) as nat
            },
            2,
            rest,
        );
        let rest = bits::flag(self.protection_absent, rest);
        let rest = bits::field(self.layer as nat, 2, rest);
        let rest = bits::field(self.mpeg_id as nat, 1, rest);
        bits::field(ADTS_SYNCWORD as nat, 12, rest)
    }

    /// The bits of the header.
    pub open spec fn encode(self) -> Seq<bool> {
        self.before(Seq::empty())
    }

    /// Parse an ADTS header from a `BitReader`.
    pub fn parse(reader: &mut BitReader) -> (r: Result<Self>)
        ensures
            ({
                let (h, c) = Self::decode(old(reader).cursor());
                &&& final(reader)@ == c.bits
                &&& final(reader).consumed() == old(reader).position_before(c.bits)
                &&& crate::error::outcome(r) == c.settle(h)
            }),
    {
        broadcast use crate::bitstream::group_faulted;

        let syncword: u16 = reader.read_u16(12)?;
        if syncword != ADTS_SYNCWORD {
            let mut message: String = String::new();
            message.append("Invalid ADTS syncword: ");
            message.append(text::hex(syncword as u64, 3).as_str());
            message.append(" (expected 0x0FFF)");
            return Err(Error::Format(FormatError::InvalidAdts(message)));
        }
        let mpeg_id: u8 = reader.read_u8(1)?;
        let layer: u8 = reader.read_u8(2)?;
        let protection_absent: bool = reader.read_bit()?;
        let profile: u8 = reader.read_u8(2)?;
        proof {
            lemma2_to64();
        }
        let aot: AudioObjectType = match AudioObjectType::from_u8(profile + 1) {
            Some(t) => t,
            None => AudioObjectType::AacLc,
        };

        let sf_index: u8 = reader.read_u8(4)?;
        let sampling_rate: SamplingRate = match SamplingRate::from_index(sf_index) {
            Some(rate) => rate,
            None => {
                return Err(
                    Error::Format(
                        FormatError::InvalidAdts(
                            text::with_number(
                                "Invalid sampling frequency index: ",
                                sf_index as u64,
                            ),
                        ),
                    ),
                );
            },
        };

        let _private_bit: bool = reader.read_bit()?;
        let channel_config_idx: u8 = reader.read_u8(3)?;
        let channel_config: ChannelConfiguration = match ChannelConfiguration::from_u8(
            channel_config_idx,
        ) {
            Some(config) => config,
            None => {
                return Err(
                    Error::Format(
                        FormatError::InvalidAdts(
                            text::with_number("Invalid channel config: ", channel_config_idx as u64),
                        ),
                    ),
                );
            },
        };

        let _original_copy: bool = reader.read_bit()?;
        let _home: bool = reader.read_bit()?;

        // Variable header
        let _copyright_id_bit: bool = reader.read_bit()?;
        let _copyright_id_start: bool = reader.read_bit()?;
        let frame_length: usize = reader.read_u16(13)? as usize;
        let buffer_fullness: u16 = reader.read_u16(11)?;
        let num_raw_data_blocks: u8 = reader.read_u8(2)?;

        let crc: Option<u16> = if !protection_absent {
            Some(reader.read_u16(16)?)
        } else {
            None
        };

        Ok(
            Self {
                mpeg_id,
                layer,
                protection_absent,
                audio_object_type: aot,
                sampling_rate,
                channel_config,
                frame_length,
                buffer_fullness,
                num_raw_data_blocks,
                crc,
            },
        )
    }

    /// Serialize this ADTS header to a `BitWriter`.
    pub fn write(&self, writer: &mut BitWriter)
        ensures
            final(writer)@ == old(writer)@ + self.encode(),
    {
        broadcast use crate::bits::group_append;

        writer.write_bits(ADTS_SYNCWORD as u64, 12);
        writer.write_u8(self.mpeg_id, 1);
        writer.write_u8(self.layer, 2);
        writer.write_bit(self.protection_absent);

        let code: u8 = self.audio_object_type.as_u8();
        let profile: u8 = code.saturating_sub(1);
        writer.write_u8(profile, 2);

        let sf_index: u8 = match self.sampling_rate.to_index() {
            Some(index) => index,
            None => 4,
        };
        writer.write_u8(sf_index, 4);
        writer.write_bit(false);  // private bit

        writer.write_u8(self.channel_config.as_u8(), 3);
        writer.write_bit(false);  // original_copy
        writer.write_bit(false);  // home

        writer.write_bit(false);  // copyright_id_bit
        writer.write_bit(false);  // copyright_id_start

        proof {
            lemma2_to64();
            bits::lemma_uint_mod(self.frame_length as nat, 13);
        }
        writer.write_u16((self.frame_length % 8192) as u16, 13);
        writer.write_u16(self.buffer_fullness, 11);
        writer.write_u8(self.num_raw_data_blocks, 2);

        if let Some(crc_val) = self.crc {
            writer.write_u16(crc_val, 16);
        }
    }

    /// The size of the header in bytes.
    pub open spec fn size(self) -> usize {
        if self.protection_absent {
            ADTS_HEADER_SIZE_NO_CRC
        } else {
            ADTS_HEADER_SIZE_CRC
        }
    }

    /// Size of this header in bytes (7 without CRC, 9 with CRC).
    pub fn header_size(&self) -> (r: usize)
        ensures
            r == self.size(),
    {
        if self.protection_absent {
            ADTS_HEADER_SIZE_NO_CRC
        } else {
            ADTS_HEADER_SIZE_CRC
        }
    }

    /// Size of raw audio payload in bytes (`frame_length - header_size`).
    pub fn payload_size(&self) -> (r: usize)
        ensures
            r == if self.frame_length >= self.size() {
                self.frame_length - self.size()
            } else {
                0
            },
    {
        self.frame_length.saturating_sub(self.header_size())
    }

    /// Whether every field fits the place that the format has for it, and the
    /// CRC is there exactly where the header says so.
    pub open spec fn representable(self) -> bool {
        &&& self.mpeg_id < 2
        &&& self.layer < 4
        &&& 1 <= self.audio_object_type.code() <= 4
        &&& !(self.sampling_rate is Custom)
        &&& self.channel_config.code() < 8
        &&& self.frame_length < 8192
        &&& self.buffer_fullness < 2048
        &&& self.num_raw_data_blocks < 4
        &&& self.protection_absent == (self.crc is None)
    }
}

/// A header comes back unchanged from the bits it was written to, whatever
/// follows them, and the bits that follow are left alone.
pub proof fn law_adts_roundtrip(h: AdtsHeader, tail: Seq<bool>)
    requires
        h.representable(),
    ensures
        AdtsHeader::decode(Cursor::at(h.encode() + tail)) == (h, Cursor::at(tail)),
{
    broadcast use crate::bitstream::group_read;

    lemma2_to64();
    assert(h.encode() + tail == h.before(tail)) by {
        broadcast use crate::bits::group_tail;

    }
}

/// A header takes up as many bits as its size says.
pub proof fn law_adts_size(h: AdtsHeader)
    requires
        h.protection_absent == (h.crc is None),
    ensures
        h.encode().len() == 8 * h.size(),
{
    broadcast use crate::bits::broadcast_uint_len;

    reveal(bits::field);
    reveal(bits::flag);
}

/// Whatever the bits, a header that is read was as long as its size says.
pub proof fn law_adts_takes_its_size(c: Cursor)
    requires
        AdtsHeader::decode(c).1.fault is None,
    ensures
        ({
            let (h, rest) = AdtsHeader::decode(c);
            c.bits.len() - rest.bits.len() == 8 * h.size()
        }),
{
    broadcast use crate::bitstream::group_shortens;

}

/// A header takes up as many bytes as its size says and reads back from them.
pub proof fn law_adts_reads_back(h: AdtsHeader, bytes: Seq<u8>)
    requires
        h.representable(),
        bits::bytes(bytes) == bits::padded(h.encode()),
    ensures
        bytes.len() == h.size(),
        AdtsHeader::decode(Cursor::at(bits::bytes(bytes))) == (h, Cursor::at(Seq::empty())),
{
    law_adts_size(h);
    law_adts_roundtrip(h, Seq::empty());
    bits::lemma_bytes_len(bytes);
    assert(bits::padded(h.encode()) =~= h.encode() + Seq::<bool>::empty());
}

} // verus!
