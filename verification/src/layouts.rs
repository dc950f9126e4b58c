//! Where the fields of each format stand.
//!
//! The formats are specified as lists of fields. The laws here say of each field
//! at which bit it starts, how wide it is and what it holds.

use crate::bits;
use crate::bitstream::Cursor;
use crate::decoder::aac::ics::TnsFilterSpec;
use crate::decoder::drc::DrcView;
use crate::encoder::aac::bitstream as elements;
use crate::encoder::aac::huffman::Codes;
use crate::encoder::aac::ics;
use crate::encoder::aac::ics::Layout;
use crate::encoder::drc;
use crate::encoder::usac::container;
use crate::encoder::usac::fd;
use crate::encoder::usac::fd::FdChannel;
use crate::encoder::usac::tns::TnsSetup;
use crate::syntax::adif;
use crate::syntax::adif::AdifHeaderView;
use crate::syntax::adts::AdtsHeader;
use crate::syntax::asc::AudioSpecificConfig;
use crate::syntax::latm::{AudioMuxElementView, StreamMuxConfig};
use crate::syntax::pce;
use crate::syntax::pce::ProgramConfigElementView;
use crate::types::FrameLength;
use vstd::arithmetic::power2::*;
use vstd::prelude::*;

verus! {

/// The `w` bits of a bit string from `from` on, as a number; bits beyond its end
/// are zero.
#[verifier::opaque]
pub open spec fn number_at(s: Seq<bool>, from: int, w: nat) -> nat
    decreases w,
{
    if w == 0 {
        0
    } else {
        2 * number_at(s, from, (w - 1) as nat) + if 0 <= from + w - 1 < s.len() && s[from + w - 1] {
            1nat
        } else {
            0
        }
    }
}

/// A bit of a bit string; none beyond its end.
pub open spec fn bit_at(s: Seq<bool>, from: int) -> bool {
    number_at(s, from, 1) == 1
}

proof fn lemma_behind(a: Seq<bool>, rest: Seq<bool>, from: int, w: nat)
    requires
        from >= a.len(),
    ensures
        number_at(a + rest, from, w) == number_at(rest, from - a.len(), w),
    decreases w,
{
    reveal(number_at);
    if w > 0 {
        lemma_behind(a, rest, from, (w - 1) as nat);
    }
}

proof fn lemma_number(v: nat, n: nat, rest: Seq<bool>, w: nat)
    requires
        w <= n,
    ensures
        number_at(bits::uint(v, n) + rest, 0, w) == (v / pow2((n - w) as nat)) % pow2(w),
    decreases w,
{
    reveal(number_at);
    lemma2_to64();
    bits::lemma_uint_len(v, n);
    lemma_pow2_pos((n - w) as nat);
    lemma_pow2_pos(w);
    if w > 0 {
        lemma_number(v, n, rest, (w - 1) as nat);
        bits::lemma_uint_index(v, n, w - 1);
        let q = v / pow2((n - w) as nat);
        lemma_pow2_pos((n - w + 1) as nat);
        lemma_pow2_unfold((n - w + 1) as nat);
        vstd::arithmetic::div_mod::lemma_div_denominator(
            v as int,
            pow2((n - w) as nat) as int,
            2,
        );
        assert(v / pow2((n - w + 1) as nat) == q / 2);
        lemma_pow2_unfold(w);
        lemma_pow2_pos((w - 1) as nat);
        vstd::arithmetic::div_mod::lemma_mod_breakdown(q as int, 2, pow2((w - 1) as nat) as int);
        assert(bits::uint(v, n)[w - 1] == (q % 2 == 1));
    } else {
        assert((v / pow2(n)) % 1 == 0);
    }
}

pub broadcast proof fn lemma_at_field(v: nat, n: nat, rest: Seq<bool>, from: int, w: nat)
    ensures
        from == 0 && w == n ==> #[trigger] number_at(bits::field(v, n, rest), from, w) == v % pow2(
            n,
        ),
        from >= n ==> number_at(bits::field(v, n, rest), from, w) == number_at(rest, from - n, w),
{
    reveal(bits::field);
    bits::lemma_uint_len(v, n);
    if from >= n {
        lemma_behind(bits::uint(v, n), rest, from, w);
    }
    if from == 0 && w == n {
        lemma_number(v, n, rest, w);
        lemma2_to64();
        assert(v / 1 == v);
    }
}

pub broadcast proof fn lemma_at_flag(b: bool, rest: Seq<bool>, from: int, w: nat)
    ensures
        from == 0 && w == 1 ==> #[trigger] number_at(bits::flag(b, rest), from, w) == if b {
            1nat
        } else {
            0
        },
        from >= 1 ==> number_at(bits::flag(b, rest), from, w) == number_at(rest, from - 1, w),
{
    reveal(bits::flag);
    if from >= 1 {
        lemma_behind(bits::bit(b), rest, from, w);
    }
    if from == 0 && w == 1 {
        reveal_with_fuel(number_at, 2);
    }
}

broadcast group group_layout {
    lemma_at_field,
    lemma_at_flag,
}

/// The `w` bits make a number of `w` bits.
pub(crate) proof fn lemma_number_bound(s: Seq<bool>, from: int, w: nat)
    ensures
        number_at(s, from, w) < pow2(w),
    decreases w,
{
    reveal(number_at);
    lemma2_to64();
    if w > 0 {
        lemma_number_bound(s, from, (w - 1) as nat);
        lemma_pow2_unfold(w);
    }
}

pub(crate) proof fn lemma_number_of_nothing(s: Seq<bool>, from: int)
    ensures
        number_at(s, from, 0) == 0,
{
    reveal(number_at);
}

pub(crate) proof fn lemma_value_at(s: Seq<bool>, from: int, w: nat)
    requires
        0 <= from,
        from + w <= s.len(),
    ensures
        bits::value(s.subrange(from, from + w)) == number_at(s, from, w),
    decreases w,
{
    reveal(number_at);
    bits::lemma_empty();
    if w > 0 {
        lemma_value_at(s, from, (w - 1) as nat);
        assert(s.subrange(from, from + w) =~= s.subrange(from, from + w - 1).push(s[from + w - 1]));
        bits::lemma_value_push(s.subrange(from, from + w - 1), s[from + w - 1]);
    } else {
        assert(s.subrange(from, from) =~= Seq::empty());
    }
}

/// A cursor reads the number where it stands and moves behind it.
pub(crate) proof fn lemma_read_at(s: Seq<bool>, from: int, w: nat)
    requires
        0 <= from,
        from + w <= s.len(),
    ensures
        Cursor::at(s.skip(from)).read(w) == (number_at(s, from, w), Cursor::at(s.skip(from + w))),
{
    reveal(Cursor::read);
    lemma_value_at(s, from, w);
    assert(s.skip(from).take(w as int) =~= s.subrange(from, from + w));
    assert(s.skip(from).skip(w as int) =~= s.skip(from + w));
}

pub(crate) proof fn lemma_flag_at(s: Seq<bool>, from: int)
    requires
        0 <= from < s.len(),
    ensures
        Cursor::at(s.skip(from)).flag() == (bit_at(s, from), Cursor::at(s.skip(from + 1))),
{
    reveal(Cursor::flag);
    reveal_with_fuel(number_at, 2);
    assert(s.skip(from).skip(1) =~= s.skip(from + 1));
}

/// The fields of an ADTS header.
pub proof fn law_adts_layout(h: AdtsHeader)
    requires
        h.representable(),
    ensures
        ({
            let s = h.encode();
            &&& number_at(s, 0, 12) == 0xfff
            &&& number_at(s, 12, 1) == h.mpeg_id
            &&& number_at(s, 13, 2) == h.layer
            &&& bit_at(s, 15) == h.protection_absent
            &&& number_at(s, 16, 2) == h.audio_object_type.code() - 1
            &&& Some(number_at(s, 18, 4) as u8) == h.sampling_rate.index()
            &&& number_at(s, 23, 3) == h.channel_config.code()
            &&& number_at(s, 30, 13) == h.frame_length
            &&& number_at(s, 43, 11) == h.buffer_fullness
            &&& number_at(s, 54, 2) == h.num_raw_data_blocks
            &&& !h.protection_absent ==> h.crc == Some(number_at(s, 56, 16) as u16)
        }),
{
    broadcast use group_layout;

    lemma2_to64();
    assert(h.sampling_rate.index() is Some);
}

/// The fields of a decoder configuration. An object type from 32 on is sent as
/// 31 and what it is above 32; a rate without an index as fifteen and its
/// Hertz.
pub proof fn law_asc_layout(c: AudioSpecificConfig)
    requires
        c.representable(),
    ensures
        ({
            let s = c.encode();
            let code = c.audio_object_type.code();
            let t = if code < 31 { 5int } else { 11 };
            let r = t + if c.sampling_rate.index() is Some { 4int } else { 28 };
            &&& code < 31 ==> number_at(s, 0, 5) == code
            &&& code >= 31 ==> number_at(s, 0, 5) == 31 && number_at(s, 5, 6) == code - 32
            &&& c.sampling_rate.index() matches Some(i) ==> number_at(s, t, 4) == i
            &&& c.sampling_rate.index() is None ==> number_at(s, t, 4) == 15 && number_at(
                s,
                t + 4,
                24,
            ) == c.sampling_rate.in_hz()
            &&& number_at(s, r, 4) == c.channel_config.code()
            &&& bit_at(s, r + 4) == (c.frame_length == FrameLength::Samples960)
            &&& bit_at(s, r + 5) == c.depends_on_core_coder
            &&& c.depends_on_core_coder ==> number_at(s, r + 6, 14) == c.core_coder_delay
            &&& !bit_at(s, r + if c.depends_on_core_coder { 20int } else { 6 })
        }),
{
    broadcast use group_layout;

    lemma2_to64();
    assert(c.channel_config.code() < 16);
    assert(c.audio_object_type.code() < 46 && c.audio_object_type.code() != 31);
}

/// The fields of a multiplex configuration. The counts are sent less one.
pub proof fn law_stream_mux_config_layout(c: StreamMuxConfig, from: int, w: nat)
    requires
        c.representable(),
        from >= 0,
    ensures
        ({
            let s = c.encode();
            &&& number_at(s, 0, 1) == c.audio_mux_version
            &&& bit_at(s, 1) == c.all_streams_same_time_framing
            &&& number_at(s, 2, 6) == c.num_sub_frames - 1
            &&& number_at(s, 8, 4) == c.num_programs - 1
            &&& number_at(s, 12, 3) == c.num_layers - 1
            &&& number_at(s, 15 + from, w) == number_at(c.asc.encode(), from, w)
        }),
{
    broadcast use group_layout;

    lemma2_to64();
}

/// The fields of a LOAS packet. The length counts the payload and one byte, or
/// four where a configuration is sent.
pub proof fn law_loas_layout(e: AudioMuxElementView, i: int)
    requires
        e.representable(),
        e.stream_mux_config is None,
        0 <= i < e.payload_bytes.len(),
    ensures
        ({
            let s = e.encode();
            &&& number_at(s, 0, 11) == 0x2b7
            &&& number_at(s, 11, 13) == e.payload_bytes.len() + 1
            &&& !bit_at(s, 24)
            &&& number_at(s, 25 + 8 * i, 8) == e.payload_bytes[i]
        }),
{
    broadcast use group_layout;

    lemma2_to64();
    let none = Seq::<bool>::empty();
    assert(bits::bytes(e.payload_bytes) + none =~= bits::bytes(e.payload_bytes));
    lemma_byte_at(e.payload_bytes, i);
}

/// The head of a LOAS packet with a configuration.
pub proof fn law_loas_config_layout(e: AudioMuxElementView)
    requires
        e.representable(),
        e.stream_mux_config is Some,
    ensures
        number_at(e.encode(), 0, 11) == 0x2b7,
        number_at(e.encode(), 11, 13) == e.payload_bytes.len() + 4,
        bit_at(e.encode(), 24),
        number_at(e.encode(), 25, 1) == (e.stream_mux_config->0).audio_mux_version,
        number_at(e.encode(), 27, 6) == (e.stream_mux_config->0).num_sub_frames - 1,
{
    broadcast use group_layout;

    lemma2_to64();
}

/// Byte `i` of a byte string is eight bits, the highest first.
proof fn lemma_byte_at(b: Seq<u8>, i: int)
    requires
        0 <= i < b.len(),
    ensures
        number_at(bits::bytes(b), 8 * i, 8) == b[i],
{
    let s = bits::bytes(b);
    bits::lemma_bytes_len(b);
    bits::lemma_bytes_byte(b, i);
    let byte = bits::uint(b[i] as nat, 8);
    bits::lemma_uint_len(b[i] as nat, 8);
    assert(s =~= s.take(8 * i) + s.skip(8 * i));
    lemma_behind(s.take(8 * i), s.skip(8 * i), 8 * i, 8);
    assert(s.skip(8 * i) =~= byte + s.skip(8 * i + 8)) by {
        assert(s.subrange(8 * i, 8 * i + 8) == byte);
        assert forall|k: int| 0 <= k < s.len() - 8 * i implies #[trigger] s.skip(8 * i)[k] == (byte
            + s.skip(8 * i + 8))[k] by {
            if k < 8 {
                assert(s.subrange(8 * i, 8 * i + 8)[k] == s[8 * i + k]);
            }
        }
    }
    lemma_number(b[i] as nat, 8, s.skip(8 * i + 8), 8);
    lemma2_to64();
    assert(b[i] as nat / 1 == b[i]);
}

proof fn lemma_elements_at(s: Seq<(bool, u8)>, rest: Seq<bool>, k: int, from: int, w: nat)
    requires
        pce::elements_fit(s),
    ensures
        0 <= k < s.len() ==> bit_at(pce::elements_before(s, rest), 5 * k) == s[k].0 && number_at(
            pce::elements_before(s, rest),
            5 * k + 1,
            4,
        ) == s[k].1,
        from >= 0 ==> number_at(pce::elements_before(s, rest), 5 * s.len() + from, w) == number_at(
            rest,
            from,
            w,
        ),
    decreases s.len(),
{
    broadcast use group_layout;

    lemma2_to64();
    if s.len() > 0 {
        let x = s.last();
        assert(x == s[s.len() - 1]);
        let more = bits::flag(x.0, bits::field(x.1 as nat, 4, rest));
        let before = s.drop_last();
        assert(pce::elements_fit(before)) by {
            assert forall|i: int| 0 <= i < before.len() implies (#[trigger] before[i]).1 < 16 by {
                assert(before[i] == s[i]);
            }
        }
        lemma_elements_at(before, more, k, from + 5, w);
        lemma_elements_at(before, more, k, 0, 1);
        lemma_elements_at(before, more, k, 1, 4);
    }
}

/// The fields of a program config element up to its lists, and the lists of its
/// channels. What is absent takes no bits.
#[verifier::rlimit(60)]
pub proof fn law_pce_layout(p: ProgramConfigElementView, k: int)
    requires
        p.representable(),
    ensures
        ({
            let s = p.encode();
            let a = if p.mono_mixdown_present { 36int } else { 32 };
            let b = a + if p.stereo_mixdown_present { 5int } else { 1 };
            let c = b + if p.matrix_mixdown_idx_present { 4int } else { 1 };
            let front = p.front_elements.len() as int;
            let side = p.side_elements.len() as int;
            let back = p.back_elements.len() as int;
            &&& number_at(s, 0, 4) == p.element_instance_tag
            &&& number_at(s, 4, 2) == p.object_type.code() - 1
            &&& Some(number_at(s, 6, 4) as u8) == p.sampling_rate.index()
            &&& number_at(s, 10, 4) == front
            &&& number_at(s, 14, 4) == side
            &&& number_at(s, 18, 4) == back
            &&& number_at(s, 22, 2) == p.lfe_element_tags.len()
            &&& number_at(s, 24, 3) == p.num_assoc_data_elements
            &&& number_at(s, 27, 4) == p.num_valid_cc_elements
            &&& bit_at(s, 31) == p.mono_mixdown_present
            &&& p.mono_mixdown_present ==> number_at(s, 32, 4) == p.mono_mixdown_element_number
            &&& bit_at(s, a) == p.stereo_mixdown_present
            &&& p.stereo_mixdown_present ==> number_at(s, a + 1, 4)
                == p.stereo_mixdown_element_number
            &&& bit_at(s, b) == p.matrix_mixdown_idx_present
            &&& p.matrix_mixdown_idx_present ==> number_at(s, b + 1, 2) == p.matrix_mixdown_idx
                && bit_at(s, b + 3) == p.pseudo_surround_enable
            &&& 0 <= k < front ==> bit_at(s, c + 5 * k) == p.front_elements[k].0 && number_at(
                s,
                c + 5 * k + 1,
                4,
            ) == p.front_elements[k].1
            &&& 0 <= k < side ==> number_at(s, c + 5 * (front + k) + 1, 4)
                == p.side_elements[k].1
            &&& 0 <= k < back ==> number_at(s, c + 5 * (front + side + k) + 1, 4)
                == p.back_elements[k].1
        }),
{
    broadcast use group_layout;

    lemma2_to64();
    assert(p.sampling_rate.index() is Some);
    let none = Seq::<bool>::empty();
    let tags = pce::tags_before(p.lfe_element_tags, none);
    let back = pce::elements_before(p.back_elements, tags);
    let side = pce::elements_before(p.side_elements, back);
    let side_len = p.side_elements.len() as int;
    lemma_elements_at(p.front_elements, side, k, 0, 1);
    lemma_elements_at(p.front_elements, side, k, 5 * k + 1, 4);
    lemma_elements_at(p.front_elements, side, k, 5 * (side_len + k) + 1, 4);
    lemma_elements_at(p.side_elements, back, k, 5 * k + 1, 4);
    lemma_elements_at(p.back_elements, tags, k, 0, 1);
}

proof fn lemma_octets_at(s: Seq<u8>, rest: Seq<bool>, k: int, from: int, w: nat)
    ensures
        0 <= k < s.len() ==> number_at(adif::octets_before(s, rest), 8 * k, 8) == s[k],
        from >= 0 ==> number_at(adif::octets_before(s, rest), 8 * s.len() + from, w) == number_at(
            rest,
            from,
            w,
        ),
    decreases s.len(),
{
    broadcast use group_layout;

    lemma2_to64();
    if s.len() > 0 {
        let x = s.last();
        let more = bits::field(x as nat, 8, rest);
        lemma_octets_at(s.drop_last(), more, k, from + 8, w);
        lemma_octets_at(s.drop_last(), more, k, 0, 8);
    }
}

/// The fields of an ADIF header in front of its configurations.
pub proof fn law_adif_layout(h: AdifHeaderView, k: int)
    requires
        h.representable(),
    ensures
        ({
            let s = h.encode();
            let a = if h.copyright_id_present { 105int } else { 33 };
            &&& number_at(s, 0, 32) == 0x41444946
            &&& bit_at(s, 32) == h.copyright_id_present
            &&& h.copyright_id_present && 0 <= k < 9 ==> number_at(s, 33 + 8 * k, 8)
                == h.copyright_id[k]
            &&& bit_at(s, a) == h.original_copy
            &&& bit_at(s, a + 1) == h.home
            &&& bit_at(s, a + 2) == h.bitstream_type
            &&& number_at(s, a + 3, 23) == h.bitrate
            &&& number_at(s, a + 26, 4) == h.num_program_config_elements - 1
            &&& !h.bitstream_type ==> number_at(s, a + 30, 20) == h.buffer_fullness
        }),
{
    broadcast use group_layout;

    lemma2_to64();
    lemma2_to64_rest();
    let n = h.num_program_config_elements;
    let rest = adif::configs_before(h.configs, Seq::empty());
    let rest = bits::field_if(!h.bitstream_type, h.buffer_fullness as nat, 20, rest);
    let rest = bits::field((n - 1) as nat, 4, rest);
    let rest = bits::field(h.bitrate as nat, 23, rest);
    let rest = bits::flag(h.bitstream_type, rest);
    let rest = bits::flag(h.home, rest);
    let rest = bits::flag(h.original_copy, rest);
    lemma_octets_at(h.copyright_id, rest, k, 0, 1);
    lemma_octets_at(h.copyright_id, rest, k, 1, 1);
    lemma_octets_at(h.copyright_id, rest, k, 2, 1);
    lemma_octets_at(h.copyright_id, rest, k, 3, 23);
    lemma_octets_at(h.copyright_id, rest, k, 26, 4);
    lemma_octets_at(h.copyright_id, rest, k, 30, 20);
}

/// The window description of a channel: its sequence, a sine window, and the
/// number of bands, with the grouping of short windows.
pub proof fn law_ics_info_layout(layout: Layout, rest: Seq<bool>, from: int, w: nat)
    requires
        layout.max_sfb < if layout.is_short() { 16int } else { 64 },
        layout.grouping_bits < 128,
        from >= 0,
    ensures
        ({
            let s = ics::ics_info(layout, rest);
            &&& !bit_at(s, 0)
            &&& number_at(s, 1, 2) == layout.sequence.code()
            &&& !bit_at(s, 3)
            &&& layout.is_short() ==> number_at(s, 4, 4) == layout.max_sfb && number_at(s, 8, 7)
                == layout.grouping_bits && number_at(s, 15 + from, w) == number_at(rest, from, w)
            &&& !layout.is_short() ==> number_at(s, 4, 6) == layout.max_sfb && !bit_at(s, 10)
                && number_at(s, 11 + from, w) == number_at(rest, from, w)
        }),
{
    broadcast use group_layout;

    lemma2_to64();
}

/// The noise shaping of a long window in an AAC channel: one filter, its
/// resolution, how many bands it reaches down from the last, its order, its
/// direction, and its coefficients as two's complement numbers.
pub proof fn law_tns_layout(f: TnsFilterSpec, num_swb: int, rest: Seq<bool>)
    requires
        f.resolution <= 1,
        0 < f.order <= 20,
        f.start_band <= num_swb,
        num_swb - f.start_band < 64,
    ensures
        ({
            let s = ics::tns_data(f, num_swb, rest);
            let width = (f.resolution + 3) as nat;
            &&& number_at(s, 0, 2) == 1
            &&& number_at(s, 2, 1) == f.resolution
            &&& number_at(s, 3, 6) == num_swb - f.start_band
            &&& number_at(s, 9, 5) == f.order
            &&& bit_at(s, 14) == f.downward
            &&& !bit_at(s, 15)
            &&& f.coef@[0] >= 0 && f.coef@[0] < 4 ==> number_at(s, 16, width) == f.coef@[0]
            &&& f.coef@[0] < 0 && f.coef@[0] >= -4 ==> number_at(s, 16, width) == pow2(width)
                + f.coef@[0]
        }),
{
    broadcast use group_layout;

    lemma2_to64();
    let width = (f.resolution + 3) as nat;
    assert(width == 3 || width == 4);
    lemma_coefficient_bits(f.coef@[0], width);
}

proof fn lemma_coefficient_bits(c: i8, width: nat)
    requires
        width == 3 || width == 4,
    ensures
        0 <= c < 4 ==> ics::coefficient_bits(c) % pow2(width) == c,
        -4 <= c < 0 ==> ics::coefficient_bits(c) % pow2(width) == pow2(width) + c,
{
    lemma2_to64();
}

/// The coefficients of a filter follow one another, the first one first.
pub proof fn law_coefficients_layout(
    coef: Seq<i8>,
    i: int,
    n: int,
    width: nat,
    rest: Seq<bool>,
    k: int,
)
    requires
        i <= k < n,
    ensures
        number_at(ics::coefficients(coef, i, n, width, rest), width * (k - i), width)
            == ics::coefficient_bits(coef[k]) % pow2(width),
    decreases n - i,
{
    broadcast use group_layout;

    let more = ics::coefficients(coef, i + 1, n, width, rest);
    vstd::arithmetic::mul::lemma_mul_basics(width as int);
    if k > i {
        law_coefficients_layout(coef, i + 1, n, width, rest, k);
        assert(width * (k - i) == width * (k - (i + 1)) + width) by (nonlinear_arith);
        assert(width * (k - i) >= width) by (nonlinear_arith)
            requires
                k - i >= 1,
                width >= 0,
        ;
    }
}

/// The header of a channel of the frequency domain path: the gain is the first
/// scalefactor, and the noise level and offset follow it.
pub proof fn law_fd_header_layout(
    channel: FdChannel,
    codes: Codes,
    setup: TnsSetup,
    rest: Seq<bool>,
    from: int,
    w: nat,
)
    requires
        0 <= channel.scalefactors@[0] <= 255,
        channel.noise_level < 8,
        channel.noise_offset < 32,
        from >= 0,
    ensures
        ({
            let s = channel.header(codes, setup, rest);
            let n = channel.scalefactors@.len() as int;
            &&& number_at(s, 0, 8) == channel.scalefactors@[0]
            &&& number_at(s, 8, 3) == channel.noise_level
            &&& number_at(s, 11, 5) == channel.noise_offset
            &&& number_at(s, 16 + from, w) == number_at(
                fd::sf_deltas(codes, channel.scalefactors@, n) + fd::tns_data(
                    channel.tns,
                    setup.length(n),
                    rest,
                ),
                from,
                w,
            )
        }),
{
    broadcast use group_layout;

    lemma2_to64();
}

/// The noise shaping of a channel of the frequency domain path. Its
/// coefficients are four bits wide and go upwards.
pub proof fn law_fd_tns_layout(
    f: crate::encoder::usac::tns::TnsFilter,
    length: int,
    rest: Seq<bool>,
    from: int,
    w: nat,
)
    requires
        0 < f.order < 16,
        0 <= length < 64,
        from >= 0,
    ensures
        ({
            let s = fd::tns_data(Some(f), length, rest);
            &&& bit_at(s, 0)
            &&& bit_at(s, 1)
            &&& number_at(s, 2, 6) == length
            &&& number_at(s, 8, 4) == f.order
            &&& !bit_at(s, 12)
            &&& !bit_at(s, 13)
            &&& number_at(s, 14 + from, w) == number_at(
                ics::coefficients(f.coef@, 0, f.order as int, 4, rest),
                from,
                w,
            )
        }),
        !bit_at(fd::tns_data(None, length, rest), 0),
        number_at(fd::tns_data(None, length, rest), 1 + from, w) == number_at(rest, from, w),
{
    broadcast use group_layout;

    lemma2_to64();
}

/// The heads of the channel elements: identifier, tag, and for a pair the flag
/// that its channels share a window; then the gain, or the window.
pub proof fn law_element_layout(tag: u8, left: i16, right: i16, max_sfb: nat)
    requires
        tag < 16,
        0 <= left < 256,
        0 <= right < 256,
        max_sfb <= 12,
    ensures
        ({
            let s = elements::sce(tag, left, max_sfb);
            &&& number_at(s, 0, 3) == 0
            &&& number_at(s, 3, 4) == tag
            &&& number_at(s, 7, 8) == left
            &&& !bit_at(s, 15)
            &&& number_at(s, 16, 2) == 0
            &&& !bit_at(s, 18)
            &&& number_at(s, 19, 6) == max_sfb
            &&& !bit_at(s, 25)
            &&& number_at(s, 26, 4) == 0
            &&& number_at(s, 30, 5) == max_sfb
            &&& !bit_at(s, 35)
            &&& !bit_at(s, 36)
            &&& !bit_at(s, 37)
        }),
        ({
            let s = elements::lfe(tag, left, max_sfb);
            &&& number_at(s, 0, 3) == 3
            &&& number_at(s, 3, 4) == tag
            &&& number_at(s, 7, 8) == left
            &&& number_at(s, 19, 6) == max_sfb
        }),
        ({
            let s = elements::cpe(tag, left, right, max_sfb);
            &&& number_at(s, 0, 3) == 1
            &&& number_at(s, 3, 4) == tag
            &&& bit_at(s, 7)
            &&& number_at(s, 12, 6) == max_sfb
            &&& number_at(s, 19, 2) == 0
            &&& number_at(s, 21, 8) == left
            &&& number_at(s, 33, 5) == max_sfb
            &&& number_at(s, 41, 8) == right
            &&& number_at(s, 53, 5) == max_sfb
        }),
{
    broadcast use group_layout;

    lemma2_to64();
    assert(elements::low_byte(left) == left && elements::low_byte(right) == right);
    let flags = |rest: Seq<bool>| bits::flag(false, bits::flag(false, bits::flag(false, rest)));
    let none = Seq::<bool>::empty();
    assert(elements::section_length(max_sfb, flags(none)) == bits::field(max_sfb, 5, flags(none)));
    let second = elements::paired_stream(right, max_sfb, none);
    assert(elements::section_length(max_sfb, flags(second)) == bits::field(
        max_sfb,
        5,
        flags(second),
    ));
}

/// A fill element: its identifier, how many bytes it has besides, one of which
/// is half the extension type and half the start of the payload, and the
/// payload.
pub proof fn law_fill_layout(payload: Seq<u8>, i: int)
    requires
        payload.len() < 268,
        0 <= i < payload.len(),
    ensures
        ({
            let s = elements::fill(payload);
            let count = payload.len() + 1;
            &&& number_at(s, 0, 3) == 6
            &&& count < 15 ==> number_at(s, 3, 4) == count && number_at(s, 7, 4) == 13
                && number_at(s, 11 + 8 * i, 8) == payload[i]
            &&& count >= 15 ==> number_at(s, 3, 4) == 15 && number_at(s, 7, 8) == count - 14
                && number_at(s, 15, 4) == 13 && number_at(s, 19 + 8 * i, 8) == payload[i]
        }),
{
    broadcast use group_layout;

    lemma2_to64();
    lemma_byte_at(payload, i);
}

/// A dynamic range element of one band without exclusions: three flags and the
/// level, or none; then the sign and the magnitude of the gain.
pub proof fn law_drc_layout(info: DrcView)
    requires
        info.bands == 1,
        info.gain.len() == 16,
        info.gain[0] > -128,
        info.channel_included == Seq::new(8, |i: int| true),
        info.reference_level matches Some(l) ==> l < 128,
    ensures
        ({
            let s = drc::element(info, Seq::empty());
            let a = if info.reference_level is Some { 12int } else { 4 };
            &&& number_at(s, 0, 1) == 0
            &&& number_at(s, 1, 1) == 0
            &&& number_at(s, 2, 1) == 0
            &&& bit_at(s, 3) == (info.reference_level is Some)
            &&& info.reference_level matches Some(l) ==> number_at(s, 4, 7) == l
            &&& bit_at(s, a) == (info.gain[0] < 0)
            &&& number_at(s, a + 1, 7) == if info.gain[0] < 0 {
                -info.gain[0]
            } else {
                info.gain[0] as int
            }
        }),
{
    broadcast use group_layout;

    lemma2_to64();
    assert(!drc::excludes_any(info.channel_included));
    assert(drc::gains_field(info.gain, 1, 1, Seq::empty()) == Seq::<bool>::empty());
}

/// The bits of a dynamic range element that excludes channels: each of the
/// first seven has one, set if the channel is excluded.
pub proof fn law_drc_exclusion_layout(info: DrcView, k: int)
    requires
        info.channel_included.len() == 8,
        drc::excludes_any(info.channel_included),
        0 <= k < 7,
    ensures
        bit_at(drc::element(info, Seq::empty()), 1),
        bit_at(drc::element(info, Seq::empty()), 2 + k) == !info.channel_included[k],
        bit_at(drc::element(info, Seq::empty()), 9) == !info.channel_included[7],
{
    broadcast use group_layout;

    reveal_with_fuel(drc::mask_field, 8);
}

/// The bytes of a container's header, and the length in front of a frame, the
/// lowest byte first.
pub proof fn law_container_layout(channels: u8, index: u8, block: Seq<u8>)
    requires
        block.len() <= u32::MAX,
    ensures
        container::header(channels, index) == seq![
            0x56u8,
            0x55,
            0x53,
            0x43,
            1,
            channels,
            index,
            0,
        ],
        ({
            let f = container::frame(block);
            &&& f.len() == block.len() + 4
            &&& f[0] + 0x100 * f[1] + 0x1_0000 * f[2] + 0x100_0000 * f[3] == block.len()
            &&& f.skip(4) == block
        }),
{
    assert(container::header(channels, index) =~= seq![
        0x56u8,
        0x55,
        0x53,
        0x43,
        1,
        channels,
        index,
        0,
    ]);
    assert(container::frame(block).skip(4) =~= block);
}

} // verus!
