//! Reading a raw data block undoes writing it.
//!
//! A raw data block is a list of elements, each of one channel or a pair,
//! behind which stands a terminator. [`law_frame_roundtrip`] shows that the
//! block of a frame gives back the frame: the window description, the mid/side
//! mask, and what each channel says.

use crate::bits;
use crate::bitstream;
use crate::bitstream::Cursor;
use crate::decoder::aac::inverse;
use crate::decoder::aac::inverse::ReadChannel;
use crate::encoder::aac::block_switch;
use crate::encoder::aac::block_switch::BlockDecision;
use crate::encoder::aac::huffman::Codes;
use crate::encoder::aac::ics as writing;
use crate::encoder::aac::ics::{ChannelCoding, Layout};
use crate::encoder::engine;
use crate::encoder::engine::{EncoderConfig, Geometry};
use crate::error::{DecodeErrorView, ErrorView};
use crate::types::WindowSequence;
use vstd::arithmetic::power2::*;
use vstd::prelude::*;

verus! {

/// The fault of an element that is neither a channel nor a pair.
pub open spec fn bad_element() -> ErrorView {
    ErrorView::Decode(DecodeErrorView::CorruptedFrame("unexpected element"@))
}

/// The window groups that a layout describes.
pub open spec fn groups_of(layout: Layout) -> Seq<usize> {
    block_switch::runs(bits::uint(layout.grouping_bits as nat, 7))
}

/// A window description.
pub open spec fn read_layout(g: Geometry, c: Cursor) -> (Layout, Cursor) {
    let (_, c) = c.flag();
    let (code, c) = c.read(2);
    let (_, c) = c.read(1);
    let sequence = WindowSequence::of_code(code as u8)->0;
    if sequence == WindowSequence::EightShortSequence {
        let (max_sfb, c) = c.read(4);
        let (grouping, c) = c.read(7);
        (
            Layout {
                sequence,
                max_sfb: max_sfb as usize,
                group_count: block_switch::runs(bits::uint(grouping, 7)).len() as usize,
                grouping_bits: grouping as u8,
                num_swb: (g.short_offsets@.len() - 1) as usize,
            },
            c,
        )
    } else {
        let (max_sfb, c) = c.read(6);
        let (_, c) = c.flag();
        (
            Layout {
                sequence,
                max_sfb: max_sfb as usize,
                group_count: 1,
                grouping_bits: 0,
                num_swb: (g.sfb_offsets@.len() - 1) as usize,
            },
            c,
        )
    }
}

/// The band table of a layout.
pub open spec fn band_table(g: Geometry, layout: Layout) -> Seq<usize> {
    if layout.is_short() {
        Seq::new(
            layout.bands() + 1,
            |k: int|
                engine::short_offset(
                    g.short_offsets@,
                    groups_of(layout),
                    layout.max_sfb as int,
                    k,
                ) as usize,
        )
    } else {
        g.sfb_offsets@
    }
}

/// `n` flags.
pub open spec fn read_flags(c: Cursor, n: nat) -> (Seq<bool>, Cursor)
    decreases n,
{
    if n == 0 {
        (Seq::empty(), c)
    } else {
        let (b, c) = c.flag();
        let (more, c) = read_flags(c, (n - 1) as nat);
        (seq![b] + more, c)
    }
}

/// The mid/side mask of a pair: none, one flag for each band, or all bands.
pub open spec fn read_mask(bands: nat, c: Cursor) -> (Option<Seq<bool>>, Cursor) {
    let (present, c) = c.read(2);
    if present == 1 {
        let (mask, c) = read_flags(c, bands);
        (Some(mask), c)
    } else if present == 2 {
        (Some(Seq::new(bands, |b: int| true)), c)
    } else {
        (None, c)
    }
}

/// A channel stream whose window description came from its element.
pub open spec fn read_body(codes: Codes, g: Geometry, layout: Layout, c: Cursor) -> (
    ReadChannel,
    Cursor,
) {
    let (gain, c) = c.read(8);
    inverse::read_payload(codes, gain as int, band_table(g, layout), layout, c)
}

/// A channel stream with its own window description.
pub open spec fn read_stream(codes: Codes, g: Geometry, c: Cursor) -> (
    (Layout, ReadChannel),
    Cursor,
) {
    let (gain, c) = c.read(8);
    let (layout, c) = read_layout(g, c);
    let (channel, c) = inverse::read_payload(
        codes,
        gain as int,
        band_table(g, layout),
        layout,
        c,
    );
    ((layout, channel), c)
}

/// What an element says: a mid/side mask if it is a pair that has one, and its
/// channels with their window descriptions.
#[verifier::ext_equal]
pub struct ReadElement {
    pub mask: Option<Seq<bool>>,
    pub channels: Seq<(Layout, ReadChannel)>,
}

/// An element of one channel, behind its identifier.
pub open spec fn read_single(codes: Codes, g: Geometry, c: Cursor) -> (ReadElement, Cursor) {
    let (_, c) = c.read(4);
    let (channel, c) = read_stream(codes, g, c);
    (ReadElement { mask: None, channels: seq![channel] }, c)
}

/// An element of two channels, behind its identifier.
pub open spec fn read_pair(codes: Codes, g: Geometry, c: Cursor) -> (ReadElement, Cursor) {
    let (_, c) = c.read(4);
    let (common, c) = c.flag();
    if common {
        let (layout, c) = read_layout(g, c);
        let (mask, c) = read_mask(layout.bands(), c);
        let (left, c) = read_body(codes, g, layout, c);
        let (right, c) = read_body(codes, g, layout, c);
        (ReadElement { mask, channels: seq![(layout, left), (layout, right)] }, c)
    } else {
        let (left, c) = read_stream(codes, g, c);
        let (right, c) = read_stream(codes, g, c);
        (ReadElement { mask: None, channels: seq![left, right] }, c)
    }
}

/// The elements up to the terminator.
#[verifier::opaque]
pub open spec fn read_elements(codes: Codes, g: Geometry, c: Cursor) -> (Seq<ReadElement>, Cursor)
    decreases c.bits.len(),
{
    let (id, rest) = c.read(3);
    if rest.fault is Some || id == 7 {
        (Seq::empty(), rest)
    } else if id > 1 {
        (Seq::empty(), rest.fail_if(true, bad_element()))
    } else {
        let (element, rest) = if id == 0 {
            read_single(codes, g, rest)
        } else {
            read_pair(codes, g, rest)
        };
        if rest.fault is Some || rest.bits.len() >= c.bits.len() {
            (seq![element], rest)
        } else {
            let (more, rest) = read_elements(codes, g, rest);
            (seq![element] + more, rest)
        }
    }
}


proof fn lemma_flags(mask: Seq<bool>, rest: Seq<bool>)
    ensures
        read_flags(Cursor::at(mask + rest), mask.len()) == (mask, Cursor::at(rest)),
    decreases mask.len(),
{
    reveal(bits::flag);
    if mask.len() == 0 {
        assert(mask + rest =~= rest);
    } else {
        let after = mask.skip(1);
        assert(mask + rest =~= bits::flag(mask[0], after + rest));
        bitstream::lemma_read_flag(mask[0], after + rest);
        lemma_flags(after, rest);
        assert(seq![mask[0]] + after =~= mask);
    }
}

proof fn lemma_mask(mask: Option<Seq<bool>>, bands: nat, rest: Seq<bool>)
    requires
        mask matches Some(m) ==> bands <= m.len(),
    ensures
        read_mask(bands, Cursor::at(engine::mask_field(mask, bands as int, rest))) == (
            taken(mask, bands),
            Cursor::at(rest),
        ),
{
    lemma2_to64();
    match mask {
        Some(m) => {
            let sent = m.take(bands as int);
            bitstream::lemma_read_field(1, 2, sent + rest);
            lemma_flags(sent, rest);
        },
        None => {
            bitstream::lemma_read_field(0, 2, rest);
        },
    }
}

/// The offsets of the short coding table depend on the groups in use only.
proof fn lemma_short_offset(offsets: Seq<usize>, a: Seq<usize>, b: Seq<usize>, m: int, n: int, k: int)
    requires
        0 <= k <= m * n,
        m > 0,
        n <= a.len(),
        n <= b.len(),
        forall|i: int| 0 <= i < n ==> a[i] == b[i],
    ensures
        engine::short_offset(offsets, a, m, k) == engine::short_offset(offsets, b, m, k),
    decreases k,
{
    if k > 0 {
        lemma_short_offset(offsets, a, b, m, n, k - 1);
        assert(0 <= (k - 1) / m < n) by (nonlinear_arith)
            requires
                0 < k <= m * n,
                m > 0,
        ;
    }
}

proof fn lemma_groups(g: Geometry, d: BlockDecision)
    requires
        d.is_complete(),
        d.sequence == WindowSequence::EightShortSequence,
    ensures
        engine::frame_layout(g, d).grouping_bits < 128,
        groups_of(engine::frame_layout(g, d)) == d.groups@.take(d.group_count as int),
{
    let field = block_switch::grouping_field(d.groups@, d.group_count as int);
    lemma2_to64();
    bits::lemma_value_bound(field);
    bits::lemma_uint_of_value(field);
    block_switch::law_grouping_roundtrip(d.groups@, d.group_count as int);
}

/// The band table that a frame's layout describes is the one it was coded
/// with.
proof fn lemma_table(g: Geometry, config: EncoderConfig, d: BlockDecision)
    requires
        g.is_of(config),
        d.is_complete(),
    ensures
        band_table(g, engine::frame_layout(g, d)) == engine::coding_table(g, d),
        engine::frame_layout(g, d).max_sfb < 64,
        d.sequence == WindowSequence::EightShortSequence ==> engine::frame_layout(g, d).max_sfb
            < 16,
{
    engine::law_geometry(g, config);
    let layout = engine::frame_layout(g, d);
    let table = engine::coding_table(g, d);
    if d.sequence == WindowSequence::EightShortSequence {
        lemma_groups(g, d);
        let m = g.short_max_sfb as int;
        let n = d.group_count as int;
        let groups = groups_of(layout);
        assert(m * n <= 60) by (nonlinear_arith)
            requires
                0 <= m <= 15,
                0 <= n <= 4,
        ;
        assert(engine::coding_bands(g, d) == m * n);
        assert forall|k: int| 0 <= k <= m * n implies engine::short_offset(
            g.short_offsets@,
            groups,
            m,
            k,
        ) == engine::short_offset(g.short_offsets@, d.groups@, m, k) by {
            if k > 0 {
                assert(m > 0) by (nonlinear_arith)
                    requires
                        0 < k <= m * n,
                        0 <= m,
                        0 <= n,
                ;
                lemma_short_offset(g.short_offsets@, groups, d.groups@, m, n, k);
            }
        }
        assert(band_table(g, layout) =~= table);
    } else {
        assert(table =~= g.sfb_offsets@);
    }
}

proof fn lemma_layout(g: Geometry, config: EncoderConfig, d: BlockDecision, rest: Seq<bool>)
    requires
        g.is_of(config),
        d.is_complete(),
    ensures
        read_layout(g, Cursor::at(writing::ics_info(engine::frame_layout(g, d), rest))) == (
            engine::frame_layout(g, d),
            Cursor::at(rest),
        ),
{
    broadcast use crate::bitstream::group_read;

    lemma2_to64();
    lemma_table(g, config, d);
    let layout = engine::frame_layout(g, d);
    assert(WindowSequence::of_code(layout.sequence.code()) == Some(layout.sequence));
    if layout.is_short() {
        lemma_groups(g, d);
        bitstream::lemma_read_field(layout.grouping_bits as nat, 7, rest);
    } else {
        bitstream::lemma_read_flag(false, rest);
    }
}

/// The part of a mask that is sent.
pub open spec fn taken(mask: Option<Seq<bool>>, bands: nat) -> Option<Seq<bool>> {
    match mask {
        Some(m) => Some(m.take(bands as int)),
        None => None,
    }
}

proof fn lemma_info_tail(layout: Layout, rest: Seq<bool>, tail: Seq<bool>)
    ensures
        writing::ics_info(layout, rest) + tail == writing::ics_info(layout, rest + tail),
{
    broadcast use crate::bits::group_tail;

}

/// Whether a channel of a frame with the given decision can be written, and
/// everything it carries can be said.
#[verifier::opaque]
pub open spec fn is_sayable(codes: Codes, g: Geometry, d: BlockDecision, ch: ChannelCoding) -> bool {
    let layout = engine::frame_layout(g, d);
    let offsets = engine::coding_table(g, d);
    ch.wf(offsets, layout) && inverse::is_sayable(codes, ch, offsets, layout)
}

/// What a channel of a frame says.
pub open spec fn said(g: Geometry, d: BlockDecision, ch: ChannelCoding) -> (Layout, ReadChannel) {
    let layout = engine::frame_layout(g, d);
    (layout, inverse::said(ch, engine::coding_table(g, d), layout))
}

proof fn lemma_body(
    codes: Codes,
    g: Geometry,
    config: EncoderConfig,
    d: BlockDecision,
    ch: ChannelCoding,
    rest: Seq<bool>,
)
    requires
        g.is_of(config),
        d.is_complete(),
        is_sayable(codes, g, d, ch),
    ensures
        ({
            let layout = engine::frame_layout(g, d);
            let offsets = engine::coding_table(g, d);
            read_body(codes, g, layout, Cursor::at(ch.body(codes, offsets, layout) + rest)) == (
                said(g, d, ch).1,
                Cursor::at(rest),
            )
        }),
{
    reveal(is_sayable);
    let layout = engine::frame_layout(g, d);
    let offsets = engine::coding_table(g, d);
    let gain = ch.gain(layout.bands() as int) as nat;
    let payload = ch.payload(codes, offsets, layout);
    lemma2_to64();
    lemma_table(g, config, d);
    bits::lemma_field_tail(gain, 8, payload, rest);
    bitstream::lemma_read_field(gain, 8, payload + rest);
    inverse::law_payload_roundtrip(codes, ch, offsets, layout, rest);
}

proof fn lemma_stream(
    codes: Codes,
    g: Geometry,
    config: EncoderConfig,
    d: BlockDecision,
    ch: ChannelCoding,
    rest: Seq<bool>,
)
    requires
        g.is_of(config),
        d.is_complete(),
        is_sayable(codes, g, d, ch),
    ensures
        ({
            let layout = engine::frame_layout(g, d);
            let offsets = engine::coding_table(g, d);
            read_stream(codes, g, Cursor::at(ch.stream(codes, offsets, layout) + rest)) == (
                said(g, d, ch),
                Cursor::at(rest),
            )
        }),
{
    reveal(is_sayable);
    let layout = engine::frame_layout(g, d);
    let offsets = engine::coding_table(g, d);
    let gain = ch.gain(layout.bands() as int) as nat;
    let payload = ch.payload(codes, offsets, layout);
    let info = writing::ics_info(layout, payload);
    lemma2_to64();
    lemma_table(g, config, d);
    bits::lemma_field_tail(gain, 8, info, rest);
    lemma_info_tail(layout, payload, rest);
    bitstream::lemma_read_field(gain, 8, info + rest);
    lemma_layout(g, config, d, payload + rest);
    inverse::law_payload_roundtrip(codes, ch, offsets, layout, rest);
}

/// The elements of the first `n` channels as they read: one on its own, or a
/// pair and the rest on their own.
pub open spec fn said_elements(
    g: Geometry,
    d: BlockDecision,
    channels: Seq<ChannelCoding>,
    mask: Option<Seq<bool>>,
    n: nat,
) -> Seq<ReadElement>
    decreases n,
{
    if n <= 1 {
        seq![ReadElement { mask: None, channels: seq![said(g, d, channels[0])] }]
    } else if n == 2 {
        seq![
            ReadElement {
                mask: taken(mask, engine::frame_layout(g, d).bands()),
                channels: seq![said(g, d, channels[0]), said(g, d, channels[1])],
            },
        ]
    } else {
        said_elements(g, d, channels, mask, (n - 1) as nat).push(
            ReadElement { mask: None, channels: seq![said(g, d, channels[n - 1])] },
        )
    }
}

/// An element in front of others is read first.
proof fn lemma_single(
    codes: Codes,
    g: Geometry,
    config: EncoderConfig,
    d: BlockDecision,
    ch: ChannelCoding,
    rest: Seq<bool>,
)
    requires
        g.is_of(config),
        d.is_complete(),
        is_sayable(codes, g, d, ch),
    ensures
        ({
            let layout = engine::frame_layout(g, d);
            let offsets = engine::coding_table(g, d);
            let (more, c) = read_elements(codes, g, Cursor::at(rest));
            read_elements(
                codes,
                g,
                Cursor::at(engine::single(codes, ch, offsets, layout) + rest),
            ) == (
                seq![ReadElement { mask: None, channels: seq![said(g, d, ch)] }] + more,
                c,
            )
        }),
{
    let layout = engine::frame_layout(g, d);
    let offsets = engine::coding_table(g, d);
    let stream = ch.stream(codes, offsets, layout);
    let tagged = bits::field(0, 4, stream);
    lemma2_to64();
    bits::lemma_field_tail(0, 3, tagged, rest);
    bits::lemma_field_tail(0, 4, stream, rest);
    bitstream::lemma_read_field(0, 3, tagged + rest);
    bitstream::lemma_read_field(0, 4, stream + rest);
    lemma_stream(codes, g, config, d, ch, rest);
    let all = engine::single(codes, ch, offsets, layout) + rest;
    assert(all.len() > rest.len()) by {
        reveal(bits::field);
        bits::lemma_uint_len(0, 3);
    }
    reveal_with_fuel(read_elements, 2);
}

proof fn lemma_pair(
    codes: Codes,
    g: Geometry,
    config: EncoderConfig,
    d: BlockDecision,
    left: ChannelCoding,
    right: ChannelCoding,
    mask: Option<Seq<bool>>,
    rest: Seq<bool>,
)
    requires
        g.is_of(config),
        d.is_complete(),
        is_sayable(codes, g, d, left),
        is_sayable(codes, g, d, right),
        mask matches Some(m) ==> engine::frame_layout(g, d).bands() <= m.len(),
    ensures
        ({
            let layout = engine::frame_layout(g, d);
            let offsets = engine::coding_table(g, d);
            let (more, c) = read_elements(codes, g, Cursor::at(rest));
            read_elements(
                codes,
                g,
                Cursor::at(engine::pair(codes, left, right, offsets, layout, mask) + rest),
            ) == (
                seq![
                    ReadElement {
                        mask: taken(mask, layout.bands()),
                        channels: seq![said(g, d, left), said(g, d, right)],
                    },
                ] + more,
                c,
            )
        }),
{
    let layout = engine::frame_layout(g, d);
    let offsets = engine::coding_table(g, d);
    let l = left.body(codes, offsets, layout);
    let r = right.body(codes, offsets, layout);
    let bodies = l + r;
    let bands = layout.bands();
    let masked = engine::mask_field(mask, bands as int, bodies);
    let info = writing::ics_info(layout, masked);
    let common = bits::flag(true, info);
    let tagged = bits::field(0, 4, common);
    lemma2_to64();
    bits::lemma_field_tail(1, 3, tagged, rest);
    bits::lemma_field_tail(0, 4, common, rest);
    bits::lemma_flag_tail(true, info, rest);
    lemma_info_tail(layout, masked, rest);
    assert(masked + rest == engine::mask_field(mask, bands as int, bodies + rest)) by {
        match mask {
            Some(m) => {
                bits::lemma_field_tail(1, 2, m.take(bands as int) + bodies, rest);
                assert((m.take(bands as int) + bodies) + rest =~= m.take(bands as int) + (bodies
                    + rest));
            },
            None => {
                bits::lemma_field_tail(0, 2, bodies, rest);
            },
        }
    }
    assert(bodies + rest =~= l + (r + rest));
    bitstream::lemma_read_field(1, 3, tagged + rest);
    bitstream::lemma_read_field(0, 4, common + rest);
    bitstream::lemma_read_flag(true, info + rest);
    lemma_layout(g, config, d, masked + rest);
    lemma_mask(mask, bands, bodies + rest);
    lemma_body(codes, g, config, d, left, r + rest);
    lemma_body(codes, g, config, d, right, rest);
    let all = engine::pair(codes, left, right, offsets, layout, mask) + rest;
    assert(all.len() > rest.len()) by {
        reveal(bits::field);
        bits::lemma_uint_len(1, 3);
    }
    reveal_with_fuel(read_elements, 2);
}

/// A list of elements and one more channel on its own.
proof fn lemma_one_more(
    before: Seq<bool>,
    last: Seq<bool>,
    rest: Seq<bool>,
    said_before: Seq<ReadElement>,
    said_last: ReadElement,
    more: Seq<ReadElement>,
)
    ensures
        (before + last) + rest == before + (last + rest),
        said_before + (seq![said_last] + more) == said_before.push(said_last) + more,
{
    assert((before + last) + rest =~= before + (last + rest));
    assert(said_before + (seq![said_last] + more) =~= said_before.push(said_last) + more);
}

proof fn lemma_elements(
    codes: Codes,
    g: Geometry,
    config: EncoderConfig,
    d: BlockDecision,
    channels: Seq<ChannelCoding>,
    mask: Option<Seq<bool>>,
    n: nat,
    rest: Seq<bool>,
)
    requires
        g.is_of(config),
        d.is_complete(),
        1 <= n <= channels.len(),
        forall|c: int| 0 <= c < n ==> is_sayable(codes, g, d, #[trigger] channels[c]),
        mask matches Some(m) ==> engine::frame_layout(g, d).bands() <= m.len(),
    ensures
        ({
            let layout = engine::frame_layout(g, d);
            let offsets = engine::coding_table(g, d);
            let (more, c) = read_elements(codes, g, Cursor::at(rest));
            read_elements(
                codes,
                g,
                Cursor::at(engine::elements(codes, channels, offsets, layout, mask, n) + rest),
            ) == (said_elements(g, d, channels, mask, n) + more, c)
        }),
    decreases n,
{
    let layout = engine::frame_layout(g, d);
    let offsets = engine::coding_table(g, d);
    assert(is_sayable(codes, g, d, channels[n - 1]));
    if n == 1 {
        lemma_single(codes, g, config, d, channels[0], rest);
    } else if n == 2 {
        assert(is_sayable(codes, g, d, channels[0]));
        lemma_pair(codes, g, config, d, channels[0], channels[1], mask, rest);
    } else {
        let before = engine::elements(codes, channels, offsets, layout, mask, (n - 1) as nat);
        let last = engine::single(codes, channels[n - 1], offsets, layout);
        let (more, c) = read_elements(codes, g, Cursor::at(rest));
        lemma_single(codes, g, config, d, channels[n - 1], rest);
        lemma_elements(codes, g, config, d, channels, mask, (n - 1) as nat, last + rest);
        let said_before = said_elements(g, d, channels, mask, (n - 1) as nat);
        let said_last = ReadElement { mask: None, channels: seq![said(g, d, channels[n - 1])] };
        lemma_one_more(before, last, rest, said_before, said_last, more);
    }
}

/// The terminator ends the list.
proof fn lemma_end(codes: Codes, g: Geometry, rest: Seq<bool>)
    ensures
        read_elements(codes, g, Cursor::at(bits::field(7, 3, rest))) == (
            Seq::<ReadElement>::empty(),
            Cursor::at(rest),
        ),
{
    lemma2_to64();
    bitstream::lemma_read_field(7, 3, rest);
    reveal_with_fuel(read_elements, 1);
}

/// A padded list of elements is the list, the terminator, and less than a byte
/// of padding.
proof fn lemma_padded(written: Seq<bool>, tail: Seq<bool>) -> (pad: Seq<bool>)
    ensures
        pad.len() < 8,
        bits::padded(written + bits::uint(7, 3)) + tail == written + bits::field(7, 3, pad + tail),
        (pad + tail).skip(pad.len() as int) == tail,
{
    reveal(bits::field);
    let end = bits::uint(7, 3);
    let pad = bits::zeros(bits::padding((written + end).len()));
    assert(((written + end) + pad) + tail =~= written + (end + (pad + tail)));
    assert((pad + tail).skip(pad.len() as int) =~= tail);
    pad
}

/// Reading the raw data block of a frame gives back the frame: of every
/// channel its window description, codebooks, scalefactors, filter and lines,
/// and of a pair its mid/side mask. What is left is less than a byte of
/// padding.
pub proof fn law_frame_roundtrip(
    codes: Codes,
    g: Geometry,
    config: EncoderConfig,
    d: BlockDecision,
    channels: Seq<ChannelCoding>,
    mask: Option<Seq<bool>>,
    tail: Seq<bool>,
)
    requires
        g.is_of(config),
        d.is_complete(),
        channels.len() >= 1,
        forall|c: int| 0 <= c < channels.len() ==> is_sayable(codes, g, d, #[trigger] channels[c]),
        mask matches Some(m) ==> engine::frame_layout(g, d).bands() <= m.len(),
    ensures
        ({
            let block = engine::raw_block(
                codes,
                channels,
                engine::coding_table(g, d),
                engine::frame_layout(g, d),
                mask,
            );
            let (elements, c) = read_elements(codes, g, Cursor::at(block + tail));
            &&& elements == said_elements(g, d, channels, mask, channels.len())
            &&& c.fault is None
            &&& tail.len() <= c.bits.len() < tail.len() + 8
            &&& c.bits.skip(c.bits.len() - tail.len()) == tail
        }),
{
    let layout = engine::frame_layout(g, d);
    let offsets = engine::coding_table(g, d);
    let written = engine::elements(codes, channels, offsets, layout, mask, channels.len());
    let pad = lemma_padded(written, tail);
    let said = said_elements(g, d, channels, mask, channels.len());
    lemma_end(codes, g, pad + tail);
    lemma_elements(
        codes,
        g,
        config,
        d,
        channels,
        mask,
        channels.len(),
        bits::field(7, 3, pad + tail),
    );
    assert(said + Seq::<ReadElement>::empty() =~= said);
}

} // verus!
