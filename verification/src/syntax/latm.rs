//! Low Overhead Audio Stream (LOAS) / LATM transport demuxer.
//!
//! Parses LOAS sync headers (0x2B7, 11 bits) and LATM `AudioMuxElement`
//! payloads for broadcast and streaming audio.

use crate::bits;
use crate::bitstream;
use crate::bitstream::{BitReader, BitWriter, Cursor};
use crate::error::{BitstreamError, Error, ErrorView, Result};
use crate::syntax::asc;
use crate::syntax::asc::AudioSpecificConfig;
use vstd::arithmetic::power2::*;
use vstd::prelude::*;

verus! {

/// LOAS / LATM Audio Multiplex Element.
#[derive(Debug, Clone, PartialEq)]
pub struct AudioMuxElement {
    pub mux_config_present: bool,
    pub stream_mux_config: Option<StreamMuxConfig>,
    pub payload_bytes: Vec<u8>,
}

/// Stream Multiplex Configuration contained in LATM headers.
#[derive(Debug, Clone, Copy, PartialEq, Eq, Structural)]
pub struct StreamMuxConfig {
    pub audio_mux_version: u8,
    pub all_streams_same_time_framing: bool,
    pub num_sub_frames: u8,
    pub num_programs: u8,
    pub num_layers: u8,
    pub asc: AudioSpecificConfig,
}

/// What an [`AudioMuxElement`] says.
#[verifier::ext_equal]
pub struct AudioMuxElementView {
    pub mux_config_present: bool,
    pub stream_mux_config: Option<StreamMuxConfig>,
    pub payload_bytes: Seq<u8>,
}

impl View for AudioMuxElement {
    type V = AudioMuxElementView;

    open spec fn view(&self) -> AudioMuxElementView {
        AudioMuxElementView {
            mux_config_present: self.mux_config_present,
            stream_mux_config: self.stream_mux_config,
            payload_bytes: self.payload_bytes@,
        }
    }
}

/// One less, or zero.
pub open spec fn pred(x: u8) -> nat {
    if x == 0 {
        0
    } else {
        (x - 1) as nat
    }
}

impl StreamMuxConfig {
    /// The configuration that a bit string starts with.
    pub open spec fn decode(c: Cursor) -> (StreamMuxConfig, Cursor) {
        let (version, c) = c.read(1);
        let (same, c) = c.flag();
        let (frames, c) = c.read(6);
        let (programs, c) = c.read(4);
        let (layers, c) = c.read(3);
        let (asc, c) = AudioSpecificConfig::decode(c);
        (
            StreamMuxConfig {
                audio_mux_version: version as u8,
                all_streams_same_time_framing: same,
                num_sub_frames: (frames + 1) as u8,
                num_programs: (programs + 1) as u8,
                num_layers: (layers + 1) as u8,
                asc,
            },
            c,
        )
    }

    /// The bits of the configuration, followed by `rest`.
    pub open spec fn before(self, rest: Seq<bool>) -> Seq<bool> {
        let rest = self.asc.before(rest);
        let rest = bits::field(pred(self.num_layers), 3, rest);
        let rest = bits::field(pred(self.num_programs), 4, rest);
        let rest = bits::field(pred(self.num_sub_frames), 6, rest);
        let rest = bits::flag(self.all_streams_same_time_framing, rest);
        bits::field(self.audio_mux_version as nat, 1, rest)
    }

    /// The bits of the configuration.
    pub open spec fn encode(self) -> Seq<bool> {
        self.before(Seq::empty())
    }

    /// Whether every field fits the place that the format has for it.
    pub open spec fn representable(self) -> bool {
        &&& self.audio_mux_version < 2
        &&& 1 <= self.num_sub_frames <= 64
        &&& 1 <= self.num_programs <= 16
        &&& 1 <= self.num_layers <= 8
        &&& self.asc.representable()
    }

    /// Parse StreamMuxConfig from bitstream reader.
    pub fn parse(reader: &mut BitReader) -> (r: Result<Self>)
        ensures
            ({
                let (config, c) = Self::decode(old(reader).cursor());
                &&& final(reader)@ == c.bits
                &&& final(reader).consumed() == old(reader).position_before(c.bits)
                &&& crate::error::outcome(r) == c.settle(config)
            }),
    {
        broadcast use crate::bitstream::group_faulted;
        broadcast use crate::syntax::asc::lemma_asc_faulted;

        let audio_mux_version: u8 = reader.read_u8(1)?;
        let all_streams_same_time_framing: bool = reader.read_bit()?;
        let frames: u8 = reader.read_u8(6)?;
        let programs: u8 = reader.read_u8(4)?;
        let layers: u8 = reader.read_u8(3)?;
        proof {
            lemma2_to64();
        }
        let num_sub_frames: u8 = frames + 1;
        let num_programs: u8 = programs + 1;
        let num_layers: u8 = layers + 1;

        let asc: AudioSpecificConfig = AudioSpecificConfig::parse(reader)?;

        Ok(
            Self {
                audio_mux_version,
                all_streams_same_time_framing,
                num_sub_frames,
                num_programs,
                num_layers,
                asc,
            },
        )
    }

    /// Write StreamMuxConfig into bitstream writer.
    pub fn write(&self, writer: &mut BitWriter)
        ensures
            final(writer)@ == old(writer)@ + self.encode(),
    {
        broadcast use crate::bits::group_append;
        broadcast use crate::syntax::asc::lemma_asc_append;

        writer.write_u8(self.audio_mux_version, 1);
        writer.write_bit(self.all_streams_same_time_framing);
        writer.write_u8(self.num_sub_frames.saturating_sub(1), 6);
        writer.write_u8(self.num_programs.saturating_sub(1), 4);
        writer.write_u8(self.num_layers.saturating_sub(1), 3);
        self.asc.write(writer);
    }
}

proof fn lemma_mux_append(w: Seq<bool>, config: StreamMuxConfig, rest: Seq<bool>)
    ensures
        w + config.before(rest) == (w + config.encode()) + rest,
{
    broadcast use crate::bits::group_append;
    broadcast use crate::syntax::asc::lemma_asc_append;

}

pub(crate) proof fn lemma_mux_tail(config: StreamMuxConfig, rest: Seq<bool>, tail: Seq<bool>)
    ensures
        config.before(rest) + tail == config.before(rest + tail),
{
    broadcast use crate::bits::group_tail;
    broadcast use crate::syntax::asc::lemma_asc_tail;

}

/// A multiplex configuration comes back unchanged from the bits it was written
/// to, and the bits that follow are left alone.
pub proof fn law_stream_mux_config_roundtrip(config: StreamMuxConfig, tail: Seq<bool>)
    requires
        config.representable(),
    ensures
        StreamMuxConfig::decode(Cursor::at(config.encode() + tail)) == (config, Cursor::at(tail)),
        config.encode() + tail == config.before(tail),
{
    broadcast use crate::bitstream::group_read;

    lemma2_to64();
    lemma_mux_tail(config, Seq::empty(), tail);
    assert(Seq::<bool>::empty() + tail =~= tail);
    asc::law_asc_roundtrip(config.asc, tail);
}

impl AudioMuxElementView {
    /// The LOAS packet that a bit string starts with. The payload runs for the
    /// declared number of bytes, or to the last whole byte where the stream
    /// ends before.
    pub open spec fn decode(c: Cursor) -> (AudioMuxElementView, Cursor) {
        let (sync, c) = c.read(11);
        let c = c.fail_if(
            sync != AudioMuxElement::LOAS_SYNCWORD,
            ErrorView::Bitstream(
                BitstreamError::InvalidSyncword {
                    expected: AudioMuxElement::LOAS_SYNCWORD,
                    found: sync as u16,
                },
            ),
        );
        let (length, c) = c.read(13);
        let (present, c) = c.flag();
        let (config, c) = if present {
            StreamMuxConfig::decode(c)
        } else {
            (arbitrary(), c)
        };
        let n = if c.bits.len() < 8 * length {
            c.bits.len() as int / 8
        } else {
            length as int
        };
        (
            AudioMuxElementView {
                mux_config_present: present,
                stream_mux_config: if present {
                    Some(config)
                } else {
                    None
                },
                payload_bytes: bits::whole_bytes(c.bits.take(8 * n)),
            },
            Cursor {
                bits: if c.fault is None {
                    c.bits.skip(8 * n)
                } else {
                    c.bits
                },
                fault: c.fault,
            },
        )
    }

    /// The bits of the packet, followed by `rest`. The declared length counts
    /// the payload and four bytes for a configuration or one byte without.
    pub open spec fn before(self, rest: Seq<bool>) -> Seq<bool> {
        let rest = bits::bytes(self.payload_bytes) + rest;
        let rest = match self.stream_mux_config {
            Some(config) => config.before(rest),
            None => rest,
        };
        let rest = bits::flag(self.mux_config_present, rest);
        let rest = bits::field(
            self.payload_bytes.len() + if self.mux_config_present {
                4nat
            } else {
                1
            },
            13,
            rest,
        );
        bits::field(AudioMuxElement::LOAS_SYNCWORD as nat, 11, rest)
    }

    /// The bits of the packet.
    pub open spec fn encode(self) -> Seq<bool> {
        self.before(Seq::empty())
    }

    /// Whether the packet has a configuration where it says so and every field
    /// fits the place that the format has for it.
    pub open spec fn representable(self) -> bool {
        &&& self.mux_config_present == (self.stream_mux_config is Some)
        &&& self.stream_mux_config matches Some(config) ==> config.representable()
        &&& self.payload_bytes.len() + 4 < 8192
    }
}

impl AudioMuxElement {
    /// LOAS Syncword: 0x2B7 (11 bits).
    pub const LOAS_SYNCWORD: u16 = 0x2B7;

    /// Parse LOAS audio packet including syncword, frame length, and AudioMuxElement.
    pub fn parse_loas(reader: &mut BitReader) -> (r: Result<Self>)
        ensures
            ({
                let (element, c) = AudioMuxElementView::decode(old(reader).cursor());
                &&& final(reader)@ == c.bits
                &&& final(reader).consumed() == old(reader).position_before(c.bits)
                &&& crate::error::outcome_view(r) == c.settle(element)
            }),
    {
        broadcast use crate::bitstream::group_faulted;

        let sync: u16 = reader.read_u16(11)?;
        if sync != Self::LOAS_SYNCWORD {
            return Err(
                Error::Bitstream(
                    BitstreamError::InvalidSyncword { expected: Self::LOAS_SYNCWORD, found: sync },
                ),
            );
        }
        let audio_mux_length: usize = reader.read_u16(13)? as usize;
        proof {
            lemma2_to64();
        }
        let mux_config_present: bool = reader.read_bit()?;

        let stream_mux_config: Option<StreamMuxConfig> = if mux_config_present {
            Some(StreamMuxConfig::parse(reader)?)
        } else {
            None
        };

        // Read payload bytes
        let ghost start = reader@;
        let left: usize = reader.bits_remaining();
        let remaining_bits: usize = if left < audio_mux_length * 8 {
            left
        } else {
            audio_mux_length * 8
        };
        let num_bytes: usize = remaining_bits / 8;
        let mut payload_bytes: Vec<u8> = Vec::new();
        let mut i: usize = 0;
        while i < num_bytes
            invariant
                i <= num_bytes,
                8 * num_bytes <= start.len(),
                payload_bytes@.len() == i,
                reader@ == start.skip(8 * i),
                reader.consumed() == old(reader).position_before(reader@),
                forall|j: int|
                    0 <= j < i ==> payload_bytes@[j] == bits::value(
                        start.subrange(8 * j, 8 * j + 8),
                    ),
            decreases num_bytes - i,
        {
            proof {
                reveal(Cursor::read);
                lemma2_to64();
                assert(reader@.take(8) =~= start.subrange(8 * i, 8 * i + 8));
                assert(reader@.skip(8) =~= start.skip(8 * (i + 1)));
            }
            let byte: u8 = reader.read_u8(8)?;
            payload_bytes.push(byte);
            i += 1;
        }
        proof {
            let n = num_bytes as int;
            let taken = start.take(8 * n);
            assert forall|j: int| 0 <= j < n implies payload_bytes@[j] == bits::whole_bytes(
                taken,
            )[j] by {
                assert(taken.subrange(8 * j, 8 * j + 8) =~= start.subrange(8 * j, 8 * j + 8));
            }
            assert(payload_bytes@ =~= bits::whole_bytes(taken));
        }

        Ok(Self { mux_config_present, stream_mux_config, payload_bytes })
    }

    /// Write LOAS formatted packet into bitstream writer.
    pub fn write_loas(&self, writer: &mut BitWriter)
        requires
            self.payload_bytes@.len() + 4 <= usize::MAX,
        ensures
            final(writer)@ == old(writer)@ + self@.encode(),
    {
        broadcast use crate::bits::group_append;

        writer.write_u16(Self::LOAS_SYNCWORD, 11);
        let length: usize = self.payload_bytes.len() + if self.mux_config_present {
            4
        } else {
            1
        };
        proof {
            lemma2_to64();
            bits::lemma_uint_mod(length as nat, 13);
        }
        writer.write_u16((length % 8192) as u16, 13);
        writer.write_bit(self.mux_config_present);

        let ghost payload = bits::bytes(self.payload_bytes@);
        if let Some(config) = self.stream_mux_config {
            proof {
                lemma_mux_append(writer@, config, payload);
            }
            config.write(writer);
        }
        proof {
            assert(payload + Seq::<bool>::empty() =~= payload);
        }
        writer.write_bytes(self.payload_bytes.as_slice());
    }
}

/// A packet comes back unchanged from the bits it was written to, where
/// nothing but the padding of the last byte follows: the declared length is
/// larger than the payload, so a reader would take up to four bytes of
/// whatever comes next into the payload.
pub proof fn law_loas_roundtrip(e: AudioMuxElementView, tail: Seq<bool>)
    requires
        e.representable(),
        tail.len() < 8,
    ensures
        AudioMuxElementView::decode(Cursor::at(e.encode() + tail)) == (e, Cursor::at(tail)),
{
    let none = Seq::<bool>::empty();
    let payload = bits::bytes(e.payload_bytes);
    assert(none + tail =~= tail);
    assert((payload + none) + tail =~= payload + tail);
    assert(e.encode() + tail == e.before(tail)) by {
        broadcast use crate::bits::group_tail;

        if let Some(config) = e.stream_mux_config {
            lemma_mux_tail(config, payload + none, tail);
        }
    }
    bits::lemma_bytes_len(e.payload_bytes);
    bits::lemma_whole_bytes(e.payload_bytes, none);
    assert(payload + none =~= payload);
    assert((payload + tail).take(8 * e.payload_bytes.len() as int) =~= payload);
    assert((payload + tail).skip(8 * e.payload_bytes.len() as int) =~= tail);
    lemma2_to64();
    let length = e.payload_bytes.len() + if e.mux_config_present {
        4nat
    } else {
        1
    };
    let r0 = payload + tail;
    let r1 = match e.stream_mux_config {
        Some(config) => config.before(r0),
        None => r0,
    };
    if let Some(config) = e.stream_mux_config {
        law_stream_mux_config_roundtrip(config, r0);
    }
    bitstream::lemma_read_flag(e.mux_config_present, r1);
    let r2 = bits::flag(e.mux_config_present, r1);
    bitstream::lemma_read_field(length, 13, r2);
    let r3 = bits::field(length, 13, r2);
    bitstream::lemma_read_field(AudioMuxElement::LOAS_SYNCWORD as nat, 11, r3);
}

/// A multiplex configuration takes fifteen bits besides those of its decoder
/// configuration, and reads back from the bytes it was written to.
pub proof fn law_stream_mux_config_reads_back(config: StreamMuxConfig, bytes: Seq<u8>)
    requires
        config.representable(),
        bits::bytes(bytes) == bits::padded(config.encode()),
    ensures
        config.encode().len() == 15 + config.asc.encode().len(),
        StreamMuxConfig::decode(Cursor::at(bits::bytes(bytes))) == (
            config,
            Cursor::at(bits::zeros(bits::padding(config.encode().len()))),
        ),
{
    broadcast use crate::bits::broadcast_uint_len;

    law_stream_mux_config_roundtrip(config, bits::zeros(bits::padding(config.encode().len())));
    reveal(bits::field);
    reveal(bits::flag);
}

/// A packet takes 25 bits, those of its configuration, and eight for each byte
/// of its payload.
pub proof fn law_loas_size(e: AudioMuxElementView)
    ensures
        e.encode().len() == 25 + (match e.stream_mux_config {
            Some(config) => 15 + config.asc.encode().len() as int,
            None => 0,
        }) + 8 * e.payload_bytes.len(),
{
    broadcast use crate::bits::broadcast_uint_len;

    let none = Seq::<bool>::empty();
    let payload = bits::bytes(e.payload_bytes) + none;
    bits::lemma_bytes_len(e.payload_bytes);
    if let Some(config) = e.stream_mux_config {
        lemma_mux_tail(config, none, payload);
        assert(none + payload =~= payload);
    }
    reveal(bits::field);
    reveal(bits::flag);
}

/// Whatever the bits, the counts of a multiplex configuration that is read are
/// those that the format can say.
pub proof fn law_stream_mux_config_counts(c: Cursor)
    ensures
        ({
            let (config, _) = StreamMuxConfig::decode(c);
            &&& 1 <= config.num_sub_frames <= 64
            &&& 1 <= config.num_programs <= 16
            &&& 1 <= config.num_layers <= 8
        }),
{
    lemma2_to64();
    let c1 = c.read(1).1.flag().1;
    lemma_read_bound(c1, 6);
    let c2 = c1.read(6).1;
    lemma_read_bound(c2, 4);
    lemma_read_bound(c2.read(4).1, 3);
}

proof fn lemma_read_bound(c: Cursor, n: nat)
    ensures
        c.read(n).0 < pow2(n),
{
    reveal(Cursor::read);
    lemma_pow2_pos(n);
    if c.fault is None && c.bits.len() >= n {
        bits::lemma_value_bound(c.bits.take(n as int));
    }
}

/// A packet reads back from the bytes it was written to, and what is left is
/// the padding of the last byte.
pub proof fn law_loas_reads_back(e: AudioMuxElementView, bytes: Seq<u8>)
    requires
        e.representable(),
        bits::bytes(bytes) == bits::padded(e.encode()),
    ensures
        AudioMuxElementView::decode(Cursor::at(bits::bytes(bytes))) == (
            e,
            Cursor::at(bits::zeros(bits::padding(e.encode().len()))),
        ),
{
    law_loas_roundtrip(e, bits::zeros(bits::padding(e.encode().len())));
}

/// Whatever does not start with the syncword is refused as no packet.
pub proof fn law_loas_needs_its_syncword(s: Seq<bool>)
    requires
        s.len() >= 11,
        bits::value(s.take(11)) != AudioMuxElement::LOAS_SYNCWORD,
    ensures
        AudioMuxElementView::decode(Cursor::at(s)).1.fault == Some(
            ErrorView::Bitstream(
                BitstreamError::InvalidSyncword {
                    expected: AudioMuxElement::LOAS_SYNCWORD,
                    found: bits::value(s.take(11)) as u16,
                },
            ),
        ),
{
    broadcast use crate::bitstream::group_faulted;
    broadcast use crate::syntax::asc::lemma_asc_faulted;

    reveal(Cursor::read);
}

} // verus!
