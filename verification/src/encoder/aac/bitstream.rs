//! AAC framing: syntactic channel elements and ADTS packaging.
//!
//! - SCE (single channel element, identifier 0)
//! - CPE (channel pair element, identifier 1)
//! - LFE (low frequency effects element, identifier 3)
//! - FIL (fill element with an SBR extension payload, identifier 6)
//!
//! The elements carry long windows with a sine shape and one section of the
//! zero codebook over all bands: everything but the spectrum itself.

use crate::bits;
use crate::bitstream::{BitWriter, Cursor};
use crate::syntax::adts;
use crate::syntax::adts::AdtsHeader;
use crate::types::{AudioObjectType, ChannelConfiguration, SamplingRate};
use vstd::arithmetic::power2::*;
use vstd::prelude::*;

verus! {

/// The low byte of a gain.
pub open spec fn low_byte(gain: i16) -> nat {
    (gain as int % 256) as nat
}

/// The length of a section in steps of five bits, where 31 means that more
/// follow, before `rest`.
pub open spec fn section_length(n: nat, rest: Seq<bool>) -> Seq<bool>
    decreases n,
{
    if n >= 31 {
        bits::field(31, 5, section_length((n - 31) as nat, rest))
    } else {
        bits::field(n, 5, rest)
    }
}

/// One section of the zero codebook over `max_sfb` bands and no tools, before
/// `rest`.
pub open spec fn sections(max_sfb: nat, rest: Seq<bool>) -> Seq<bool> {
    let rest = bits::flag(false, bits::flag(false, bits::flag(false, rest)));
    bits::field(0, 4, section_length(max_sfb, rest))
}

/// The window description, before `rest`: long window, sine shape.
pub open spec fn window_info(max_sfb: nat, rest: Seq<bool>) -> Seq<bool> {
    bits::flag(
        false,
        bits::field(0, 2, bits::field(0, 1, bits::field(max_sfb, 6, bits::flag(false, rest)))),
    )
}

/// A channel stream with its own window description, before `rest`.
pub open spec fn channel_stream(gain: i16, max_sfb: nat, rest: Seq<bool>) -> Seq<bool> {
    bits::field(low_byte(gain), 8, window_info(max_sfb, sections(max_sfb, rest)))
}

/// A channel stream of a pair, before `rest`.
pub open spec fn paired_stream(gain: i16, max_sfb: nat, rest: Seq<bool>) -> Seq<bool> {
    bits::field(low_byte(gain), 8, sections(max_sfb, rest))
}

/// A single channel element.
pub open spec fn sce(tag: u8, gain: i16, max_sfb: nat) -> Seq<bool> {
    bits::field(0, 3, bits::field(tag as nat, 4, channel_stream(gain, max_sfb, Seq::empty())))
}

/// A channel pair element whose channels share their window and are not coded
/// mid/side.
pub open spec fn cpe(tag: u8, left: i16, right: i16, max_sfb: nat) -> Seq<bool> {
    let streams = paired_stream(left, max_sfb, paired_stream(right, max_sfb, Seq::empty()));
    bits::field(
        1,
        3,
        bits::field(
            tag as nat,
            4,
            bits::flag(true, window_info(max_sfb, bits::field(0, 2, streams))),
        ),
    )
}

/// A low frequency effects element, which codes at most twelve bands.
pub open spec fn lfe(tag: u8, gain: i16, max_sfb: nat) -> Seq<bool> {
    let bands = if max_sfb <= 12 {
        max_sfb
    } else {
        12
    };
    bits::field(3, 3, bits::field(tag as nat, 4, channel_stream(gain, bands, Seq::empty())))
}

/// What is left of a fill length after its escape, in bytes of at most 255,
/// before `rest`.
pub open spec fn fill_extra(extra: nat, rest: Seq<bool>) -> Seq<bool>
    decreases extra,
{
    if extra >= 255 {
        bits::field(255, 8, fill_extra((extra - 255) as nat, rest))
    } else {
        bits::field(extra, 8, rest)
    }
}

/// A fill element that carries an SBR payload.
pub open spec fn fill(payload: Seq<u8>) -> Seq<bool> {
    let count = payload.len() + 1;
    let rest = bits::field(13, 4, bits::bytes(payload));
    bits::field(
        6,
        3,
        if count < 15 {
            bits::field(count, 4, rest)
        } else {
            bits::field(15, 4, fill_extra((count - 14) as nat, rest))
        },
    )
}

/// A channel element of a layout: which channels it carries and the instance
/// tag that tells it from others of its kind.
#[derive(Debug, Clone, Copy, PartialEq, Eq, Structural)]
pub enum Element {
    Single { tag: u8, channel: usize },
    Pair { tag: u8, first: usize },
    Lfe { tag: u8, channel: usize },
}

/// The elements of `channels` channels on their own.
pub open spec fn singles(channels: nat) -> Seq<Element> {
    Seq::new(
        channels,
        |c: int| Element::Single { tag: (c % 16) as u8, channel: c as usize },
    )
}

/// Whether a configuration has no elements of its own.
pub open spec fn is_singles(config: ChannelConfiguration) -> bool {
    match config {
        ChannelConfiguration::CustomPce | ChannelConfiguration::SixPointOne
        | ChannelConfiguration::TwentyTwoPointTwo => true,
        _ => false,
    }
}

/// The elements of a channel configuration. One that has no elements
/// of its own has its `channels` channels each on its own.
pub open spec fn layout(config: ChannelConfiguration, channels: nat) -> Seq<Element> {
    let center = Element::Single { tag: 0, channel: 0 };
    let front = Element::Pair { tag: 0, first: 1 };
    let surround = Element::Pair { tag: 1, first: 3 };
    match config {
        ChannelConfiguration::Mono => seq![center],
        ChannelConfiguration::Stereo => seq![Element::Pair { tag: 0, first: 0 }],
        ChannelConfiguration::ThreeChannel => seq![center, front],
        ChannelConfiguration::FourChannel => seq![
            center,
            front,
            Element::Single { tag: 1, channel: 3 },
        ],
        ChannelConfiguration::FiveChannel => seq![center, front, surround],
        ChannelConfiguration::FivePointOne => seq![
            center,
            front,
            surround,
            Element::Lfe { tag: 0, channel: 5 },
        ],
        ChannelConfiguration::SevenPointOne | ChannelConfiguration::SevenPointOneTop => seq![
            center,
            front,
            surround,
            Element::Pair { tag: 2, first: 5 },
            Element::Lfe { tag: 0, channel: 7 },
        ],
        _ => singles(channels),
    }
}

impl Element {
    /// One past the last channel the element carries.
    pub open spec fn end(self) -> int {
        match self {
            Self::Single { channel, .. } => channel + 1,
            Self::Pair { first, .. } => first + 2,
            Self::Lfe { channel, .. } => channel + 1,
        }
    }

    /// The bits of the element.
    pub open spec fn encode(self, gains: Seq<i16>, max_sfb: nat) -> Seq<bool> {
        match self {
            Self::Single { tag, channel } => sce(tag, gains[channel as int], max_sfb),
            Self::Pair { tag, first } => cpe(
                tag,
                gains[first as int],
                gains[first + 1],
                max_sfb,
            ),
            Self::Lfe { tag, channel } => lfe(tag, gains[channel as int], max_sfb),
        }
    }
}

/// The bits of a list of elements.
pub open spec fn encode_all(es: Seq<Element>, gains: Seq<i16>, max_sfb: nat) -> Seq<bool>
    decreases es.len(),
{
    if es.len() == 0 {
        Seq::empty()
    } else {
        encode_all(es.drop_last(), gains, max_sfb) + es.last().encode(gains, max_sfb)
    }
}

/// Reads a section length: five-bit steps until one is less than 31.
pub open spec fn read_section_length(c: Cursor) -> (nat, Cursor)
    decreases c.bits.len(),
{
    let (step, rest) = c.read(5);
    if step < 31 || rest.bits.len() >= c.bits.len() {
        (step, rest)
    } else {
        let (more, rest) = read_section_length(rest);
        (31 + more, rest)
    }
}

/// A section length reads back as the number of bands it was written for, and
/// what follows is left alone.
pub proof fn law_section_length(n: nat, tail: Seq<bool>)
    ensures
        read_section_length(Cursor::at(section_length(n, tail))) == (n, Cursor::at(tail)),
    decreases n,
{
    lemma2_to64();
    if n >= 31 {
        let more = section_length((n - 31) as nat, tail);
        law_section_length((n - 31) as nat, tail);
        crate::bitstream::lemma_read_field(31, 5, more);
        reveal(bits::field);
        bits::lemma_uint_len(31, 5);
        assert(bits::field(31, 5, more).len() == 5 + more.len());
    } else {
        crate::bitstream::lemma_read_field(n, 5, tail);
    }
}

/// Every channel of a layout is carried by exactly one element, in order: each
/// element starts where the one before it ends, and the last ends with the
/// last channel.
pub proof fn law_layout_covers_channels(config: ChannelConfiguration, channels: nat, k: int)
    requires
        channels <= usize::MAX,
        0 <= k < layout(config, channels).len(),
    ensures
        ({
            let es = layout(config, channels);
            let from = if k == 0 {
                0
            } else {
                es[k - 1].end()
            };
            &&& match es[k] {
                Element::Single { channel, .. } => channel == from,
                Element::Pair { first, .. } => first == from,
                Element::Lfe { channel, .. } => channel == from,
            }
            &&& k == es.len() - 1 ==> es[k].end() == if is_singles(config) {
                channels as int
            } else {
                config.channel_count() as int
            }
        }),
{
}

fn write_sections(writer: &mut BitWriter, max_sfb: u8)
    ensures
        final(writer)@ == old(writer)@ + sections(max_sfb as nat, Seq::empty()),
{
    broadcast use crate::bits::group_append;

    let ghost rest = bits::flag(false, bits::flag(false, bits::flag(false, Seq::empty())));
    writer.write_u8(0, 4);
    let ghost start = writer@;
    let mut remaining: u8 = max_sfb;
    while remaining >= 31
        invariant
            remaining <= max_sfb,
            writer@ + section_length(remaining as nat, rest) == start + section_length(
                max_sfb as nat,
                rest,
            ),
        decreases remaining,
    {
        proof {
            bits::lemma_append_field(writer@, 31, 5, section_length((remaining - 31) as nat, rest));
        }
        writer.write_u8(31, 5);
        remaining = remaining - 31;
    }
    writer.write_u8(remaining, 5);
    writer.write_bit(false);  // pulse_data_present
    writer.write_bit(false);  // tns_data_present
    writer.write_bit(false);  // gain_control_data_present
}

fn low_bits(gain: i16) -> (r: u8)
    ensures
        r == low_byte(gain),
{
    let r: u8 = (gain & 0xFF) as u8;
    assert(r as int == gain as int % 256) by (bit_vector)
        requires
            r == (gain & 0xFF) as u8,
    ;
    r
}

fn write_window_info(writer: &mut BitWriter, max_sfb: u8)
    ensures
        forall|rest: Seq<bool>|
            #[trigger] (final(writer)@ + rest) == old(writer)@ + window_info(max_sfb as nat, rest),
{
    let ghost w0 = writer@;
    writer.write_bit(false);  // ics_reserved_bit
    let ghost w1 = writer@;
    writer.write_u8(0, 2);  // window_sequence: only long
    let ghost w2 = writer@;
    writer.write_u8(0, 1);  // window_shape: sine
    let ghost w3 = writer@;
    writer.write_u8(max_sfb, 6);
    let ghost w4 = writer@;
    writer.write_bit(false);  // predictor_data_present
    proof {
        assert forall|rest: Seq<bool>|
            #[trigger] (writer@ + rest) == w0 + window_info(max_sfb as nat, rest) by {
            let r4 = bits::flag(false, rest);
            let r3 = bits::field(max_sfb as nat, 6, r4);
            let r2 = bits::field(0, 1, r3);
            let r1 = bits::field(0, 2, r2);
            bits::lemma_append_flag(w4, false, rest);
            bits::lemma_append_field(w3, max_sfb as nat, 6, r4);
            bits::lemma_append_field(w2, 0, 1, r3);
            bits::lemma_append_field(w1, 0, 2, r2);
            bits::lemma_append_flag(w0, false, r1);
        }
    }
}

fn write_channel_stream(writer: &mut BitWriter, global_gain: i16, max_sfb: u8)
    ensures
        final(writer)@ == old(writer)@ + channel_stream(global_gain, max_sfb as nat, Seq::empty()),
{
    broadcast use crate::bits::group_append;

    writer.write_u8(low_bits(global_gain), 8);
    write_window_info(writer, max_sfb);
    write_sections(writer, max_sfb);
}

/// Encode a single channel element.
pub fn write_sce(
    writer: &mut BitWriter,
    instance_tag: u8,
    global_gain: i16,
    max_sfb: u8,
    _quantized: &[i32],
)
    ensures
        final(writer)@ == old(writer)@ + sce(instance_tag, global_gain, max_sfb as nat),
{
    broadcast use crate::bits::group_append;

    writer.write_u8(0, 3);
    writer.write_u8(instance_tag, 4);
    write_channel_stream(writer, global_gain, max_sfb);
}

/// Encode a channel pair element.
pub fn write_cpe(
    writer: &mut BitWriter,
    instance_tag: u8,
    global_gain_l: i16,
    global_gain_r: i16,
    max_sfb: u8,
    _quantized_left: &[i32],
    _quantized_right: &[i32],
)
    ensures
        final(writer)@ == old(writer)@ + cpe(
            instance_tag,
            global_gain_l,
            global_gain_r,
            max_sfb as nat,
        ),
{
    broadcast use crate::bits::group_append;

    writer.write_u8(1, 3);
    writer.write_u8(instance_tag, 4);
    writer.write_bit(true);  // common_window
    write_window_info(writer, max_sfb);
    writer.write_u8(0, 2);  // ms_mask_present
    writer.write_u8(low_bits(global_gain_l), 8);
    let ghost left = writer@;
    write_sections(writer, max_sfb);
    proof {
        let after = paired_stream(global_gain_r, max_sfb as nat, Seq::empty());
        lemma_sections_then(left, max_sfb as nat, after);
    }
    writer.write_u8(low_bits(global_gain_r), 8);
    write_sections(writer, max_sfb);
}

proof fn lemma_section_length_then(w: Seq<bool>, n: nat, rest: Seq<bool>, after: Seq<bool>)
    ensures
        w + section_length(n, rest) + after == w + section_length(n, rest + after),
    decreases n,
{
    if n >= 31 {
        let m = (n - 31) as nat;
        bits::lemma_append_field(w, 31, 5, section_length(m, rest));
        bits::lemma_append_field(w, 31, 5, section_length(m, rest + after));
        lemma_section_length_then(w + bits::uint(31, 5), m, rest, after);
    } else {
        reveal(bits::field);
        assert(w + (bits::uint(n, 5) + rest) + after =~= w + (bits::uint(n, 5) + (rest + after)));
    }
}

/// What follows a section can be put behind its bits.
proof fn lemma_sections_then(w: Seq<bool>, max_sfb: nat, after: Seq<bool>)
    ensures
        w + sections(max_sfb, Seq::empty()) + after == w + sections(max_sfb, after),
{
    let tools = bits::flag(false, bits::flag(false, bits::flag(false, Seq::empty())));
    let tools_then = bits::flag(false, bits::flag(false, bits::flag(false, after)));
    reveal(bits::flag);
    assert(tools + after =~= tools_then);
    bits::lemma_append_field(w, 0, 4, section_length(max_sfb, tools));
    bits::lemma_append_field(w, 0, 4, section_length(max_sfb, tools_then));
    lemma_section_length_then(w + bits::uint(0, 4), max_sfb, tools, after);
}

/// Encode a low frequency effects element.
pub fn write_lfe(
    writer: &mut BitWriter,
    instance_tag: u8,
    global_gain: i16,
    max_sfb: u8,
    _quantized: &[i32],
)
    ensures
        final(writer)@ == old(writer)@ + lfe(instance_tag, global_gain, max_sfb as nat),
{
    broadcast use crate::bits::group_append;

    writer.write_u8(3, 3);
    writer.write_u8(instance_tag, 4);
    let bands: u8 = if max_sfb <= 12 {
        max_sfb
    } else {
        12
    };
    write_channel_stream(writer, global_gain, bands);
}

/// Encode a fill element with an SBR extension payload.
pub fn write_fill_sbr(writer: &mut BitWriter, sbr_payload: &[u8])
    requires
        sbr_payload@.len() < usize::MAX,
    ensures
        final(writer)@ == old(writer)@ + fill(sbr_payload@),
{
    broadcast use crate::bits::group_append;

    let ghost rest = bits::field(13, 4, bits::bytes(sbr_payload@));
    writer.write_u8(6, 3);
    let count: usize = sbr_payload.len() + 1;
    if count < 15 {
        writer.write_u8(count as u8, 4);
    } else {
        writer.write_u8(15, 4);
        let ghost start = writer@;
        let mut extra: usize = count - 14;
        while extra >= 255
            invariant
                extra <= count - 14,
                writer@ + fill_extra(extra as nat, rest) == start + fill_extra(
                    (count - 14) as nat,
                    rest,
                ),
            decreases extra,
        {
            proof {
                bits::lemma_append_field(writer@, 255, 8, fill_extra((extra - 255) as nat, rest));
            }
            writer.write_u8(255, 8);
            extra = extra - 255;
        }
        writer.write_u8(extra as u8, 8);
    }
    writer.write_u8(13, 4);
    writer.write_bytes(sbr_payload);
}

/// The elements of a channel configuration.
fn channel_layout(config: ChannelConfiguration, channels: usize) -> (r: Vec<Element>)
    ensures
        r@ == layout(config, channels as nat),
{
    let center = Element::Single { tag: 0, channel: 0 };
    let front = Element::Pair { tag: 0, first: 1 };
    let surround = Element::Pair { tag: 1, first: 3 };
    let mut out: Vec<Element> = Vec::new();
    match config {
        ChannelConfiguration::Mono => {
            out.push(center);
        },
        ChannelConfiguration::Stereo => {
            out.push(Element::Pair { tag: 0, first: 0 });
        },
        ChannelConfiguration::ThreeChannel => {
            out.push(center);
            out.push(front);
        },
        ChannelConfiguration::FourChannel => {
            out.push(center);
            out.push(front);
            out.push(Element::Single { tag: 1, channel: 3 });
        },
        ChannelConfiguration::FiveChannel => {
            out.push(center);
            out.push(front);
            out.push(surround);
        },
        ChannelConfiguration::FivePointOne => {
            out.push(center);
            out.push(front);
            out.push(surround);
            out.push(Element::Lfe { tag: 0, channel: 5 });
        },
        ChannelConfiguration::SevenPointOne | ChannelConfiguration::SevenPointOneTop => {
            out.push(center);
            out.push(front);
            out.push(surround);
            out.push(Element::Pair { tag: 2, first: 5 });
            out.push(Element::Lfe { tag: 0, channel: 7 });
        },
        _ => {
            let mut c: usize = 0;
            while c < channels
                invariant
                    c <= channels,
                    out@ == singles(c as nat),
                decreases channels - c,
            {
                out.push(Element::Single { tag: (c % 16) as u8, channel: c });
                c += 1;
                assert(out@ =~= singles(c as nat));
            }
        },
    }
    assert(out@ =~= layout(config, channels as nat));
    out
}

/// Serialize the elements of a channel configuration, and an SBR fill element
/// behind them where there is a payload.
pub fn write_multichannel_elements(
    writer: &mut BitWriter,
    channel_config: ChannelConfiguration,
    global_gains: &[i16],
    max_sfb: u8,
    quantized: &[Vec<i32>],
    sbr_payload: Option<&[u8]>,
)
    requires
        forall|k: int|
            0 <= k < layout(channel_config, quantized@.len()).len() ==> (#[trigger] layout(
                channel_config,
                quantized@.len(),
            )[k]).end() <= global_gains@.len() && layout(
                channel_config,
                quantized@.len(),
            )[k].end() <= quantized@.len(),
        sbr_payload is Some ==> sbr_payload->0@.len() < usize::MAX,
    ensures
        final(writer)@ == old(writer)@ + encode_all(
            layout(channel_config, quantized@.len()),
            global_gains@,
            max_sfb as nat,
        ) + match sbr_payload {
            Some(payload) => fill(payload@),
            None => Seq::empty(),
        },
{
    let elements: Vec<Element> = channel_layout(channel_config, quantized.len());
    let ghost start = writer@;
    let mut k: usize = 0;
    assert(elements@.take(0) =~= Seq::<Element>::empty());
    assert(writer@ =~= start + encode_all(elements@.take(0), global_gains@, max_sfb as nat));
    while k < elements.len()
        invariant
            k <= elements@.len(),
            elements@ == layout(channel_config, quantized@.len()),
            forall|j: int|
                0 <= j < elements@.len() ==> (#[trigger] elements@[j]).end() <= global_gains@.len()
                    && elements@[j].end() <= quantized@.len(),
            writer@ == start + encode_all(
                elements@.take(k as int),
                global_gains@,
                max_sfb as nat,
            ),
        decreases elements@.len() - k,
    {
        let ghost before = writer@;
        let element: Element = elements[k];
        match element {
            Element::Single { tag, channel } => {
                write_sce(
                    writer,
                    tag,
                    global_gains[channel],
                    max_sfb,
                    quantized[channel].as_slice(),
                );
            },
            Element::Pair { tag, first } => {
                write_cpe(
                    writer,
                    tag,
                    global_gains[first],
                    global_gains[first + 1],
                    max_sfb,
                    quantized[first].as_slice(),
                    quantized[first + 1].as_slice(),
                );
            },
            Element::Lfe { tag, channel } => {
                write_lfe(
                    writer,
                    tag,
                    global_gains[channel],
                    max_sfb,
                    quantized[channel].as_slice(),
                );
            },
        }
        proof {
            assert(writer@ == before + element.encode(global_gains@, max_sfb as nat));
            assert(elements@.take(k + 1).drop_last() =~= elements@.take(k as int));
            assert(writer@ =~= start + encode_all(
                elements@.take(k + 1),
                global_gains@,
                max_sfb as nat,
            ));
        }
        k += 1;
    }
    assert(elements@.take(k as int) =~= elements@);
    if let Some(payload) = sbr_payload {
        write_fill_sbr(writer, payload);
    }
}

/// The ADTS header of a frame of `payload` bytes.
pub open spec fn frame_header(
    payload: nat,
    aot: AudioObjectType,
    sampling_rate: SamplingRate,
    channel_config: ChannelConfiguration,
) -> AdtsHeader {
    AdtsHeader {
        mpeg_id: 0,
        layer: 0,
        protection_absent: true,
        audio_object_type: aot,
        sampling_rate,
        channel_config,
        frame_length: (payload + 7) as usize,
        buffer_fullness: 0x7FF,
        num_raw_data_blocks: 0,
        crc: None,
    }
}

/// Package a payload with ADTS framing.
pub fn finalize_adts_frame(
    raw_payload: &[u8],
    aot: AudioObjectType,
    sampling_rate: SamplingRate,
    channel_config: ChannelConfiguration,
) -> (r: Vec<u8>)
    requires
        raw_payload@.len() + 7 <= usize::MAX,
    ensures
        bits::bytes(r@) == frame_header(
            raw_payload@.len(),
            aot,
            sampling_rate,
            channel_config,
        ).encode() + bits::bytes(raw_payload@),
        r@.len() == raw_payload@.len() + 7,
{
    let frame_length: usize = raw_payload.len() + 7;
    let header = AdtsHeader {
        mpeg_id: 0,
        layer: 0,
        protection_absent: true,
        audio_object_type: aot,
        sampling_rate,
        channel_config,
        frame_length,
        buffer_fullness: 0x7FF,
        num_raw_data_blocks: 0,
        crc: None,
    };
    let mut writer = BitWriter::with_capacity(frame_length);
    header.write(&mut writer);
    writer.write_bytes(raw_payload);
    let ghost written = writer@;
    let out: Vec<u8> = writer.into_bytes();
    proof {
        adts::law_adts_size(header);
        bits::lemma_bytes_len(raw_payload@);
        bits::lemma_bytes_len(out@);
        assert(written =~= header.encode() + bits::bytes(raw_payload@));
        assert(written.len() == 8 * (7 + raw_payload@.len()));
        assert(bits::padding(written.len()) == 0);
        assert(bits::padded(written) =~= written);
    }
    out
}

/// Reading the header of a packaged frame gives back what the frame was
/// packaged with, its length names all of the frame, and what follows is the
/// payload.
pub proof fn law_adts_frame_roundtrip(
    payload: Seq<u8>,
    aot: AudioObjectType,
    sampling_rate: SamplingRate,
    channel_config: ChannelConfiguration,
)
    requires
        payload.len() + 7 < 8192,
        1 <= aot.code() <= 4,
        !(sampling_rate is Custom),
        channel_config.code() < 8,
    ensures
        ({
            let header = frame_header(payload.len(), aot, sampling_rate, channel_config);
            &&& AdtsHeader::decode(Cursor::at(header.encode() + bits::bytes(payload))) == (
                header,
                Cursor::at(bits::bytes(payload)),
            )
            &&& 8 * header.frame_length == (header.encode() + bits::bytes(payload)).len()
        }),
{
    let header = frame_header(payload.len(), aot, sampling_rate, channel_config);
    adts::law_adts_roundtrip(header, bits::bytes(payload));
    adts::law_adts_size(header);
    bits::lemma_bytes_len(payload);
}

/// The elements of each configuration that has some of its own, in order.
pub proof fn law_elements_in_order(config: ChannelConfiguration, channels: nat, g: Seq<i16>, m: nat)
    ensures
        ({
            let written = encode_all(layout(config, channels), g, m);
            let center = sce(0, g[0], m);
            let front = cpe(0, g[1], g[2], m);
            let surround = cpe(1, g[3], g[4], m);
            match config {
                ChannelConfiguration::Mono => written == center,
                ChannelConfiguration::Stereo => written == cpe(0, g[0], g[1], m),
                ChannelConfiguration::ThreeChannel => written == center + front,
                ChannelConfiguration::FourChannel => written == center + front + sce(1, g[3], m),
                ChannelConfiguration::FiveChannel => written == center + front + surround,
                ChannelConfiguration::FivePointOne => written == center + front + surround + lfe(
                    0,
                    g[5],
                    m,
                ),
                ChannelConfiguration::SevenPointOne
                | ChannelConfiguration::SevenPointOneTop => written == center + front + surround
                    + cpe(2, g[5], g[6], m) + lfe(0, g[7], m),
                _ => true,
            }
        }),
{
    let es = layout(config, channels);
    if !is_singles(config) {
        lemma_encode_prefix(es, g, m, es.len() as int);
        lemma_encode_prefix(es, g, m, es.len() - 1);
        lemma_encode_prefix(es, g, m, es.len() - 2);
        lemma_encode_prefix(es, g, m, es.len() - 3);
        lemma_encode_prefix(es, g, m, es.len() - 4);
        assert(es.take(es.len() as int) =~= es);
        assert(es.take(0) =~= Seq::<Element>::empty());
        assert(Seq::<bool>::empty() + es[0].encode(g, m) =~= es[0].encode(g, m));
    }
}

proof fn lemma_encode_prefix(es: Seq<Element>, g: Seq<i16>, m: nat, k: int)
    ensures
        0 < k <= es.len() ==> encode_all(es.take(k), g, m) == encode_all(es.take(k - 1), g, m)
            + es[k - 1].encode(g, m),
{
    if 0 < k <= es.len() {
        assert(es.take(k).drop_last() =~= es.take(k - 1));
    }
}

/// A low frequency element is a single channel element under another
/// identifier, of at most twelve bands: both take 38 bits, which differ in
/// the first three alone.
pub proof fn law_lfe_is_a_capped_sce(tag: u8, gain: i16, max_sfb: nat)
    ensures
        ({
            let bands = if max_sfb <= 12 {
                max_sfb
            } else {
                12
            };
            let a = sce(tag, gain, bands);
            let b = lfe(tag, gain, max_sfb);
            &&& a.len() == 38
            &&& b.len() == 38
            &&& a.take(3) == seq![false, false, false]
            &&& b.take(3) == seq![false, true, true]
            &&& a.skip(3) == b.skip(3)
        }),
{
    broadcast use crate::bits::broadcast_uint_len;

    reveal(bits::field);
    reveal(bits::flag);
    let bands = if max_sfb <= 12 {
        max_sfb
    } else {
        12
    };
    let a = sce(tag, gain, bands);
    let b = lfe(tag, gain, max_sfb);
    let rest = bits::field(tag as nat, 4, channel_stream(gain, bands, Seq::empty()));
    assert(bits::uint(0, 3) =~= seq![false, false, false]) by {
        reveal_with_fuel(bits::uint, 4);
    }
    assert(bits::uint(3, 3) =~= seq![false, true, true]) by {
        reveal_with_fuel(bits::uint, 4);
    }
    assert(a =~= bits::uint(0, 3) + rest);
    assert(b =~= bits::uint(3, 3) + rest);
    assert(a.skip(3) =~= rest);
    assert(b.skip(3) =~= rest);
    assert(a.take(3) =~= bits::uint(0, 3));
    assert(b.take(3) =~= bits::uint(3, 3));
}

} // verus!
