//! Where the readers of the formats take their fields from.
//!
//! Each law speaks of any bit string that is long enough, not only of those
//! that the writers make.

use crate::bits;
use crate::bitstream::Cursor;
use crate::decoder::drc;
use crate::decoder::drc::DrcInfo;
use crate::decoder::usac::container;
use crate::error::{BitstreamError, ErrorView};
use crate::layouts;
use crate::syntax::adts::AdtsHeader;
use crate::syntax::asc::AudioSpecificConfig;
use crate::syntax::latm::{AudioMuxElementView, StreamMuxConfig};
use crate::syntax::pce::ProgramConfigElementView;
use crate::types::{AudioObjectType, FrameLength};
use vstd::arithmetic::power2::*;
use vstd::prelude::*;

verus! {

/// An ADTS header is refused exactly where its syncword is another or its rate
/// is none of the table. Its fields stand at fixed places, and a checksum
/// follows unless the header says that there is none.
pub proof fn law_adts_reading(s: Seq<bool>)
    requires
        s.len() >= 72,
    ensures
        ({
            let (h, c) = AdtsHeader::decode(Cursor::at(s));
            let ok = layouts::number_at(s, 0, 12) == 0xFFF && layouts::number_at(s, 18, 4) <= 12;
            &&& c.fault is None <==> ok
            &&& ok ==> {
                &&& h.mpeg_id == layouts::number_at(s, 12, 1)
                &&& h.layer == layouts::number_at(s, 13, 2)
                &&& h.protection_absent == layouts::bit_at(s, 15)
                &&& h.audio_object_type.code() == layouts::number_at(s, 16, 2) + 1
                &&& h.sampling_rate.in_hz() == crate::types::standard_hz(
                    layouts::number_at(s, 18, 4) as int,
                )
                &&& h.channel_config.code() == layouts::number_at(s, 23, 3)
                &&& h.frame_length == layouts::number_at(s, 30, 13)
                &&& h.buffer_fullness == layouts::number_at(s, 43, 11)
                &&& h.num_raw_data_blocks == layouts::number_at(s, 54, 2)
                &&& h.crc == if layouts::bit_at(s, 15) {
                    None
                } else {
                    Some(layouts::number_at(s, 56, 16) as u16)
                }
                &&& c.bits == s.skip(
                    if layouts::bit_at(s, 15) {
                        56
                    } else {
                        72
                    },
                )
            }
        }),
{
    broadcast use crate::bitstream::group_faulted;

    assert(s.skip(0) =~= s);
    lemma2_to64();
    layouts::lemma_read_at(s, 0, 12);
    layouts::lemma_read_at(s, 12, 1);
    layouts::lemma_read_at(s, 13, 2);
    layouts::lemma_flag_at(s, 15);
    layouts::lemma_read_at(s, 16, 2);
    layouts::lemma_read_at(s, 18, 4);
    layouts::lemma_flag_at(s, 22);
    layouts::lemma_read_at(s, 23, 3);
    layouts::lemma_flag_at(s, 26);
    layouts::lemma_flag_at(s, 27);
    layouts::lemma_flag_at(s, 28);
    layouts::lemma_flag_at(s, 29);
    layouts::lemma_read_at(s, 30, 13);
    layouts::lemma_read_at(s, 43, 11);
    layouts::lemma_read_at(s, 54, 2);
    layouts::lemma_read_at(s, 56, 16);
    layouts::lemma_number_bound(s, 12, 1);
    layouts::lemma_number_bound(s, 13, 2);
    layouts::lemma_number_bound(s, 16, 2);
    layouts::lemma_number_bound(s, 18, 4);
    layouts::lemma_number_bound(s, 23, 3);
    layouts::lemma_number_bound(s, 30, 13);
    layouts::lemma_number_bound(s, 43, 11);
    layouts::lemma_number_bound(s, 54, 2);
}

/// A configuration without escapes: the object type, the rate and the channels
/// stand in front. With spectral band replication or parametric stereo the
/// extension's rate and object type follow; the former comes with the latter
/// tool too. Last come the frame length, and the delay where there is one.
pub proof fn law_asc_reading(s: Seq<bool>)
    requires
        s.len() >= 38,
        layouts::number_at(s, 0, 5) != 31,
        layouts::number_at(s, 5, 4) != 15,
        layouts::number_at(s, 13, 4) != 15,
        layouts::number_at(s, 17, 5) != 31,
    ensures
        ({
            let (a, c) = AudioSpecificConfig::decode(Cursor::at(s));
            let t = layouts::number_at(s, 0, 5);
            let extended = t == 5 || t == 29;
            let at = if extended { 22int } else { 13 };
            c.fault is None ==> {
                &&& a.audio_object_type.code() == t
                &&& a.sampling_rate.in_hz() == crate::types::standard_hz(
                    layouts::number_at(s, 5, 4) as int,
                )
                &&& a.channel_config.code() == layouts::number_at(s, 9, 4)
                &&& a.sbr_present == extended
                &&& a.ps_present == (t == 29)
                &&& !extended ==> a.extension_sampling_rate is None
                    && a.extension_audio_object_type is None
                &&& extended && layouts::number_at(s, 13, 4) <= 12 ==> a.extension_sampling_rate
                    is Some && (a.extension_sampling_rate->0).in_hz() == crate::types::standard_hz(
                    layouts::number_at(s, 13, 4) as int,
                )
                &&& extended ==> a.extension_audio_object_type == AudioObjectType::of_code(
                    layouts::number_at(s, 17, 5) as u8,
                )
                &&& a.frame_length == if layouts::bit_at(s, at) {
                    FrameLength::Samples960
                } else {
                    FrameLength::Samples1024
                }
                &&& a.depends_on_core_coder == layouts::bit_at(s, at + 1)
                &&& a.core_coder_delay == if layouts::bit_at(s, at + 1) {
                    layouts::number_at(s, at + 2, 14)
                } else {
                    0
                }
            }
        }),
        AudioSpecificConfig::decode(Cursor::at(s)).1.fault is None ==> layouts::number_at(s, 5, 4)
            <= 12,
{
    broadcast use crate::bitstream::group_faulted;

    assert(s.skip(0) =~= s);
    lemma2_to64();
    let t = layouts::number_at(s, 0, 5);
    let extended = t == 5 || t == 29;
    let at = if extended { 22int } else { 13 };
    layouts::lemma_read_at(s, 0, 5);
    layouts::lemma_read_at(s, 5, 4);
    layouts::lemma_read_at(s, 9, 4);
    layouts::lemma_read_at(s, 13, 4);
    layouts::lemma_read_at(s, 17, 5);
    layouts::lemma_flag_at(s, at);
    layouts::lemma_flag_at(s, at + 1);
    layouts::lemma_read_at(s, at + 2, 14);
    layouts::lemma_number_bound(s, 0, 5);
    layouts::lemma_number_bound(s, 5, 4);
    layouts::lemma_number_bound(s, 9, 4);
    layouts::lemma_number_bound(s, 13, 4);
    layouts::lemma_number_bound(s, 17, 5);
    layouts::lemma_number_bound(s, at + 2, 14);
    assert(AudioObjectType::of_code(t as u8) matches Some(x) ==> x.code() == t);
}

/// An object type that is escaped is the six bits behind the escape, above 32,
/// and an escaped rate the 24 bits behind its escape.
pub proof fn law_asc_escapes(s: Seq<bool>)
    requires
        s.len() >= 60,
        layouts::number_at(s, 0, 5) == 31,
        layouts::number_at(s, 11, 4) == 15,
    ensures
        ({
            let (a, c) = AudioSpecificConfig::decode(Cursor::at(s));
            c.fault is None ==> {
                &&& a.audio_object_type.code() == 32 + layouts::number_at(s, 5, 6)
                &&& a.sampling_rate.in_hz() == layouts::number_at(s, 15, 24)
                &&& a.channel_config.code() == layouts::number_at(s, 39, 4)
            }
        }),
{
    broadcast use crate::bitstream::group_faulted;

    assert(s.skip(0) =~= s);
    lemma2_to64();
    layouts::lemma_read_at(s, 0, 5);
    layouts::lemma_read_at(s, 5, 6);
    layouts::lemma_read_at(s, 11, 4);
    layouts::lemma_read_at(s, 15, 24);
    layouts::lemma_read_at(s, 39, 4);
    layouts::lemma_number_bound(s, 5, 6);
    layouts::lemma_number_bound(s, 15, 24);
    layouts::lemma_number_bound(s, 39, 4);
}

/// A packet without a configuration: its length counts bytes, of which as many
/// are taken as there are.
pub proof fn law_loas_reading(s: Seq<bool>, i: int)
    requires
        s.len() >= 25,
        layouts::number_at(s, 0, 11) == 0x2B7,
        !layouts::bit_at(s, 24),
    ensures
        ({
            let (e, c) = AudioMuxElementView::decode(Cursor::at(s));
            let said = layouts::number_at(s, 11, 13);
            let n = e.payload_bytes.len();
            &&& c.fault is None
            &&& !e.mux_config_present && e.stream_mux_config is None
            &&& n <= said && 25 + 8 * n <= s.len()
            &&& n < said ==> 25 + 8 * (n + 1) > s.len()
            &&& 0 <= i < n ==> e.payload_bytes[i] == layouts::number_at(s, 25 + 8 * i, 8)
            &&& c.bits == s.skip(25 + 8 * n as int)
        }),
{
    assert(s.skip(0) =~= s);
    lemma2_to64();
    layouts::lemma_read_at(s, 0, 11);
    layouts::lemma_read_at(s, 11, 13);
    layouts::lemma_flag_at(s, 24);
    layouts::lemma_number_bound(s, 11, 13);
    let said = layouts::number_at(s, 11, 13);
    let rest = s.skip(25);
    let n = if rest.len() < 8 * said {
        rest.len() as int / 8
    } else {
        said as int
    };
    let (e, c) = AudioMuxElementView::decode(Cursor::at(s));
    assert(e.payload_bytes.len() == n);
    assert(c.bits =~= s.skip(25 + 8 * n));
    if 0 <= i < n {
        layouts::lemma_value_at(s, 25 + 8 * i, 8);
        layouts::lemma_number_bound(s, 25 + 8 * i, 8);
        assert(rest.take(8 * n).subrange(8 * i, 8 * i + 8) =~= s.subrange(
            25 + 8 * i,
            25 + 8 * i + 8,
        ));
    }
}

/// The fields of a program config element that stand at fixed places. A rate
/// that is none of the table is taken for 44100 Hz.
pub proof fn law_pce_reading(s: Seq<bool>)
    requires
        s.len() >= 32,
    ensures
        ({
            let p = ProgramConfigElementView::decode(Cursor::at(s)).0;
            &&& p.element_instance_tag == layouts::number_at(s, 0, 4)
            &&& p.object_type.code() == layouts::number_at(s, 4, 2) + 1
            &&& p.sampling_rate.in_hz() == crate::types::standard_hz(
                if layouts::number_at(s, 6, 4) <= 12 {
                    layouts::number_at(s, 6, 4) as int
                } else {
                    4
                },
            )
            &&& p.num_front_channel_elements == layouts::number_at(s, 10, 4)
            &&& p.num_side_channel_elements == layouts::number_at(s, 14, 4)
            &&& p.num_back_channel_elements == layouts::number_at(s, 18, 4)
            &&& p.num_lfe_channel_elements == layouts::number_at(s, 22, 2)
            &&& p.num_assoc_data_elements == layouts::number_at(s, 24, 3)
            &&& p.num_valid_cc_elements == layouts::number_at(s, 27, 4)
            &&& p.mono_mixdown_present == layouts::bit_at(s, 31)
        }),
{
    assert(s.skip(0) =~= s);
    lemma2_to64();
    layouts::lemma_read_at(s, 0, 4);
    layouts::lemma_read_at(s, 4, 2);
    layouts::lemma_read_at(s, 6, 4);
    layouts::lemma_read_at(s, 10, 4);
    layouts::lemma_read_at(s, 14, 4);
    layouts::lemma_read_at(s, 18, 4);
    layouts::lemma_read_at(s, 22, 2);
    layouts::lemma_read_at(s, 24, 3);
    layouts::lemma_read_at(s, 27, 4);
    layouts::lemma_flag_at(s, 31);
    layouts::lemma_number_bound(s, 0, 4);
    layouts::lemma_number_bound(s, 4, 2);
    layouts::lemma_number_bound(s, 6, 4);
    layouts::lemma_number_bound(s, 10, 4);
    layouts::lemma_number_bound(s, 14, 4);
    layouts::lemma_number_bound(s, 18, 4);
    layouts::lemma_number_bound(s, 22, 2);
    layouts::lemma_number_bound(s, 24, 3);
    layouts::lemma_number_bound(s, 27, 4);
}

proof fn lemma_tops(s: Seq<bool>, from: int, n: nat, i: int)
    requires
        0 <= from,
        n <= 16,
        from + 8 * n <= s.len(),
    ensures
        ({
            let (tops, c) = drc::read_tops(Cursor::at(s.skip(from)), n);
            &&& c == Cursor::at(s.skip(from + 8 * n))
            &&& tops.len() == 16
            &&& 0 <= i < n ==> tops[i] == 4 * (layouts::number_at(s, from + 8 * i, 8) + 1)
            &&& n <= i < 16 ==> tops[i] == usize::MAX
        }),
    decreases n,
{
    lemma2_to64();
    if n > 0 {
        lemma_tops(s, from, (n - 1) as nat, i);
        layouts::lemma_read_at(s, from + 8 * (n - 1), 8);
        layouts::lemma_number_bound(s, from + 8 * (n - 1), 8);
    } else {
        assert(s.skip(from + 0) =~= s.skip(from));
    }
}

proof fn lemma_gains(s: Seq<bool>, from: int, n: nat, i: int)
    requires
        0 <= from,
        n <= 16,
        from + 8 * n <= s.len(),
    ensures
        ({
            let (gains, c) = drc::read_gains(Cursor::at(s.skip(from)), n);
            let size = layouts::number_at(s, from + 8 * i + 1, 7) as int;
            &&& c == Cursor::at(s.skip(from + 8 * n))
            &&& gains.len() == 16
            &&& 0 <= i < n ==> gains[i] == if layouts::bit_at(s, from + 8 * i) {
                0 - size
            } else {
                size
            }
            &&& n <= i < 16 ==> gains[i] == 0
        }),
    decreases n,
{
    lemma2_to64();
    if n > 0 {
        lemma_gains(s, from, (n - 1) as nat, i);
        let at = from + 8 * (n - 1);
        layouts::lemma_flag_at(s, at);
        layouts::lemma_read_at(s, at + 1, 7);
        layouts::lemma_number_bound(s, at + 1, 7);
    } else {
        assert(s.skip(from + 0) =~= s.skip(from));
    }
}

proof fn lemma_mask(s: Seq<bool>, from: int, n: nat, i: int)
    requires
        0 <= from,
        n <= 8,
        from + n <= s.len(),
    ensures
        ({
            let (found, c) = drc::read_mask(Cursor::at(s.skip(from)), n);
            &&& c == Cursor::at(s.skip(from + n))
            &&& found.len() == 8
            &&& 0 <= i < n ==> found[i] == !layouts::bit_at(s, from + i)
            &&& n <= i < 8 ==> found[i]
        }),
    decreases n,
{
    if n > 0 {
        lemma_mask(s, from, (n - 1) as nat, i);
        layouts::lemma_flag_at(s, from + n - 1);
    } else {
        assert(s.skip(from + 0) =~= s.skip(from));
    }
}

/// Dynamic range metadata that excludes no channel. A tag takes a byte and is
/// passed over. Of several bands each ends where its byte says, four lines a
/// step; the last has its end too. A reference level takes seven bits and one
/// that is passed over. A gain is a sign and seven bits.
pub proof fn law_drc_reading(s: Seq<bool>, i: int)
    requires
        s.len() >= 300,
        !layouts::bit_at(
            s,
            if layouts::bit_at(s, 0) {
                9
            } else {
                1
            },
        ),
        0 <= i < 16,
    ensures
        ({
            let (info, c) = DrcInfo::decode(Cursor::at(s));
            let a = if layouts::bit_at(s, 0) { 9int } else { 1 };
            let several = layouts::bit_at(s, a + 1);
            let bands = if several { layouts::number_at(s, a + 2, 4) as int + 1 } else { 1 };
            let b = if several { a + 10 + 8 * bands } else { a + 2 };
            let g = if layouts::bit_at(s, b) { b + 9 } else { b + 1 };
            let size = layouts::number_at(s, g + 8 * i + 1, 7) as int;
            &&& c.fault is None
            &&& info.bands == bands
            &&& info.interpolation_scheme == if several {
                layouts::number_at(s, a + 6, 4)
            } else {
                0
            }
            &&& info.band_top[i] == if several && i < bands {
                4 * (layouts::number_at(s, a + 10 + 8 * i, 8) + 1)
            } else {
                usize::MAX as nat
            }
            &&& info.reference_level == if layouts::bit_at(s, b) {
                Some(layouts::number_at(s, b + 1, 7) as u8)
            } else {
                None
            }
            &&& info.gain[i] == if i >= bands {
                0
            } else if layouts::bit_at(s, g + 8 * i) {
                0 - size
            } else {
                size
            }
            &&& i < 8 ==> info.channel_included[i]
            &&& c.bits == s.skip(g + 8 * bands)
        }),
{
    let a = if layouts::bit_at(s, 0) { 9int } else { 1 };
    let several = layouts::bit_at(s, a + 1);
    let bands = if several { layouts::number_at(s, a + 2, 4) + 1 } else { 1 };
    let b = if several { a + 10 + 8 * bands } else { a + 2 };
    let g = if layouts::bit_at(s, b) { b + 9 } else { b + 1 };
    assert(s.skip(0) =~= s);
    lemma2_to64();
    layouts::lemma_flag_at(s, 0);
    layouts::lemma_read_at(s, 1, 8);
    layouts::lemma_flag_at(s, a);
    layouts::lemma_flag_at(s, a + 1);
    layouts::lemma_read_at(s, a + 2, 4);
    layouts::lemma_read_at(s, a + 6, 4);
    layouts::lemma_number_bound(s, a + 2, 4);
    layouts::lemma_number_bound(s, a + 6, 4);
    lemma_tops(s, if several { a + 10 } else { a + 2 }, if several { bands } else { 0 }, i);
    layouts::lemma_flag_at(s, b);
    layouts::lemma_read_at(s, b + 1, 7);
    layouts::lemma_read_at(s, b + 8, 1);
    lemma_gains(s, g, bands, i);
}

/// An exclusion mask: a bit for each of seven channels, and whether more
/// follow; the first of those is the eighth channel's. Without more the eighth
/// channel is included.
pub proof fn law_drc_exclusion_reading(s: Seq<bool>, i: int)
    requires
        s.len() >= 16,
        0 <= i < 8,
    ensures
        ({
            let (found, c) = drc::read_included(Cursor::at(s));
            let more = layouts::bit_at(s, 7);
            &&& found.len() == 8
            &&& found[i] == if i < 7 {
                !layouts::bit_at(s, i)
            } else {
                !(more && layouts::bit_at(s, 8))
            }
            &&& !more ==> c == Cursor::at(s.skip(8))
            &&& more && !layouts::bit_at(s, 15) ==> c == Cursor::at(s.skip(16))
            &&& more && layouts::bit_at(s, 15) ==> c == drc::skip_masks(Cursor::at(s.skip(16)))
        }),
{
    assert(s.skip(0) =~= s);
    lemma2_to64();
    lemma_mask(s, 0, 7, i);
    layouts::lemma_flag_at(s, 7);
    layouts::lemma_read_at(s, 8, 8);
    lemma_eight(s, 8);
}

proof fn lemma_eight(s: Seq<bool>, from: int)
    ensures
        layouts::number_at(s, from, 8) % 2 == 1 <==> layouts::bit_at(s, from + 7),
        layouts::number_at(s, from, 8) >= 128 <==> layouts::bit_at(s, from),
{
    reveal_with_fuel(layouts::number_at, 9);
}

/// Further masks are passed over up to the first one whose last bit is not
/// set.
pub proof fn law_drc_masks_are_passed_over(s: Seq<bool>)
    requires
        s.len() >= 8,
    ensures
        drc::skip_masks(Cursor::at(s)) == if layouts::bit_at(s, 7) {
            drc::skip_masks(Cursor::at(s.skip(8)))
        } else {
            Cursor::at(s.skip(8))
        },
{
    assert(s.skip(0) =~= s);
    layouts::lemma_read_at(s, 0, 8);
    lemma_eight(s, 0);
}

/// A container's header is accepted exactly where its eight bytes are there
/// and start with the magic, and version, channels and rate are known.
pub proof fn law_container_header_reading(b: Seq<u8>)
    ensures
        ({
            let ok = b.len() >= 8 && b[0] == 0x56 && b[1] == 0x55 && b[2] == 0x53 && b[3] == 0x43
                && b[4] == 1 && (b[5] == 1 || b[5] == 2) && b[6] <= 12;
            match container::header_of(b) {
                Ok(h) => ok && h.channels == b[5] && h.sample_rate_hz == crate::types::standard_hz(
                    b[6] as int,
                ),
                Err(e) => !ok,
            }
        }),
{
    if b.len() >= 8 {
        let magic = seq![0x56u8, 0x55, 0x53, 0x43];
        assert(crate::encoder::usac::container::MAGIC@ =~= magic);
        let head = b.take(4);
        assert(head.len() == 4 && head[0] == b[0] && head[1] == b[1] && head[2] == b[2] && head[3]
            == b[3]);
        if b[0] == 0x56 && b[1] == 0x55 && b[2] == 0x53 && b[3] == 0x43 {
            assert(head =~= magic);
        }
        assert(magic[0] == 0x56 && magic[1] == 0x55 && magic[2] == 0x53 && magic[3] == 0x43);
    }
}

/// The bytes of the frames of a stream and four more for each are all there is
/// behind the header.
pub proof fn law_frames_fill_a_stream(b: Seq<u8>, offset: int)
    requires
        0 <= offset <= b.len(),
    ensures
        container::frames_from(b, offset) matches Ok(frames) ==> offset + bytes_in(
            frames,
            frames.len() as int,
        ) + 4 * frames.len() == b.len(),
        offset < b.len() < offset + 4 ==> container::frames_from(b, offset) is Err,
        offset + 4 <= b.len() && offset + 4 + b[offset] + 0x100 * b[offset + 1] + 0x1_0000 * b[offset
            + 2] + 0x100_0000 * b[offset + 3] > b.len() ==> container::frames_from(b, offset) is Err,
    decreases b.len() - offset,
{
    if let Ok(Some((start, end))) = container::frame_at(b, offset) {
        law_frames_fill_a_stream(b, end);
        if let Ok(more) = container::frames_from(b, end) {
            let first = b.subrange(start, end);
            lemma_bytes_in(first, more, more.len() as int);
        }
    }
    if offset + 4 <= b.len() {
        let four = b.subrange(offset, offset + 4);
        assert(four[0] == b[offset] && four[1] == b[offset + 1] && four[2] == b[offset + 2]
            && four[3] == b[offset + 3]);
    }
}

/// The bytes of the first `n` frames.
pub open spec fn bytes_in(frames: Seq<Seq<u8>>, n: int) -> int
    decreases n,
{
    if n <= 0 {
        0
    } else {
        bytes_in(frames, n - 1) + frames[n - 1].len()
    }
}

proof fn lemma_bytes_in(first: Seq<u8>, more: Seq<Seq<u8>>, n: int)
    requires
        0 <= n <= more.len(),
    ensures
        bytes_in(seq![first] + more, n + 1) == first.len() + bytes_in(more, n),
    decreases n,
{
    reveal_with_fuel(bytes_in, 2);
    if n > 0 {
        lemma_bytes_in(first, more, n - 1);
        assert((seq![first] + more)[n] == more[n - 1]);
    } else {
        assert((seq![first] + more)[0] == first);
    }
}

/// A field that the bits do not reach for is refused with how many it needs
/// and how many there are, and nothing is taken; what is read after that is
/// refused as well.
pub proof fn law_past_the_end(s: Seq<bool>, n: nat, m: nat)
    requires
        s.len() < n <= usize::MAX,
    ensures
        ({
            let c = Cursor::at(s).read(n).1;
            let fault = Some(
                ErrorView::Bitstream(
                    BitstreamError::UnexpectedEof {
                        needed_bits: n as usize,
                        available_bits: s.len() as usize,
                    },
                ),
            );
            &&& c.bits == s && c.fault == fault
            &&& c.read(m) == (0nat, c) && c.flag() == (false, c)
        }),
{
    reveal(Cursor::read);
    reveal(Cursor::flag);
}

/// A bit string that ends in the middle of a byte is filled up with zeros, and
/// one that does not is left as it is.
pub proof fn law_padding(s: Seq<bool>, i: int)
    ensures
        bits::padded(s).len() % 8 == 0,
        s.len() <= bits::padded(s).len() < s.len() + 8,
        bits::padded(s).take(s.len() as int) == s,
        s.len() <= i < bits::padded(s).len() ==> !bits::padded(s)[i],
{
    assert(bits::padded(s).take(s.len() as int) =~= s);
}

/// A byte string is sent byte by byte, the highest bit of each first.
pub proof fn law_bits_of_bytes(b: Seq<u8>, i: int, k: int)
    requires
        0 <= i < b.len(),
        0 <= k < 8,
    ensures
        bits::bytes(b).len() == 8 * b.len(),
        bits::bytes(b)[8 * i + k] == ((b[i] as nat / pow2((7 - k) as nat)) % 2 == 1),
{
    bits::lemma_bytes_len(b);
    bits::lemma_bytes_byte(b, i);
    bits::lemma_uint_index(b[i] as nat, 8, k);
    assert(bits::bytes(b).subrange(8 * i, 8 * i + 8)[k] == bits::bytes(b)[8 * i + k]);
}

/// A packet with a configuration: behind it stand as many bytes as the length
/// says, or as there are.
pub proof fn law_loas_config_reading(s: Seq<bool>)
    requires
        s.len() >= 25,
        layouts::number_at(s, 0, 11) == 0x2B7,
        layouts::bit_at(s, 24),
        StreamMuxConfig::decode(Cursor::at(s.skip(25))).1.fault is None,
    ensures
        ({
            let (config, rest) = StreamMuxConfig::decode(Cursor::at(s.skip(25)));
            let (e, c) = AudioMuxElementView::decode(Cursor::at(s));
            let said = layouts::number_at(s, 11, 13);
            let n = e.payload_bytes.len();
            &&& c.fault is None
            &&& e.mux_config_present && e.stream_mux_config == Some(config)
            &&& n <= said && 8 * n <= rest.bits.len()
            &&& n < said ==> 8 * (n + 1) > rest.bits.len()
            &&& c.bits == rest.bits.skip(8 * n as int)
        }),
{
    assert(s.skip(0) =~= s);
    layouts::lemma_read_at(s, 0, 11);
    layouts::lemma_read_at(s, 11, 13);
    layouts::lemma_flag_at(s, 24);
    let rest = StreamMuxConfig::decode(Cursor::at(s.skip(25))).1.bits;
    let said = layouts::number_at(s, 11, 13);
    let n = if rest.len() < 8 * said {
        rest.len() as int / 8
    } else {
        said as int
    };
    assert(rest.take(8 * n).len() == 8 * n);
}

} // verus!
