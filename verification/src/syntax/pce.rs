//! Program Config Element (PCE) parser and serializer.
//!
//! Handles custom multi-channel speaker mapping, LFE counts, matrix mixdown
//! coefficients and pseudo-surround metadata.

use crate::bits;
use crate::bitstream;
use crate::bitstream::{BitReader, BitWriter, Cursor};
use crate::error::Result;
use crate::types::{AudioObjectType, SamplingRate};
use vstd::arithmetic::power2::*;
use vstd::prelude::*;

verus! {

/// Program Config Element definition.
#[derive(Debug, Clone, PartialEq)]
pub struct ProgramConfigElement {
    pub element_instance_tag: u8,
    pub object_type: AudioObjectType,
    pub sampling_rate: SamplingRate,
    pub num_front_channel_elements: u8,
    pub num_side_channel_elements: u8,
    pub num_back_channel_elements: u8,
    pub num_lfe_channel_elements: u8,
    pub num_assoc_data_elements: u8,
    pub num_valid_cc_elements: u8,
    pub mono_mixdown_present: bool,
    pub mono_mixdown_element_number: u8,
    pub stereo_mixdown_present: bool,
    pub stereo_mixdown_element_number: u8,
    pub matrix_mixdown_idx_present: bool,
    pub matrix_mixdown_idx: u8,
    pub pseudo_surround_enable: bool,
    /// (is_cpe, tag) for each front element.
    pub front_elements: Vec<(bool, u8)>,
    pub side_elements: Vec<(bool, u8)>,
    pub back_elements: Vec<(bool, u8)>,
    pub lfe_element_tags: Vec<u8>,
}

/// What a [`ProgramConfigElement`] says.
#[verifier::ext_equal]
pub struct ProgramConfigElementView {
    pub element_instance_tag: u8,
    pub object_type: AudioObjectType,
    pub sampling_rate: SamplingRate,
    pub num_front_channel_elements: u8,
    pub num_side_channel_elements: u8,
    pub num_back_channel_elements: u8,
    pub num_lfe_channel_elements: u8,
    pub num_assoc_data_elements: u8,
    pub num_valid_cc_elements: u8,
    pub mono_mixdown_present: bool,
    pub mono_mixdown_element_number: u8,
    pub stereo_mixdown_present: bool,
    pub stereo_mixdown_element_number: u8,
    pub matrix_mixdown_idx_present: bool,
    pub matrix_mixdown_idx: u8,
    pub pseudo_surround_enable: bool,
    pub front_elements: Seq<(bool, u8)>,
    pub side_elements: Seq<(bool, u8)>,
    pub back_elements: Seq<(bool, u8)>,
    pub lfe_element_tags: Seq<u8>,
}

impl View for ProgramConfigElement {
    type V = ProgramConfigElementView;

    open spec fn view(&self) -> ProgramConfigElementView {
        ProgramConfigElementView {
            element_instance_tag: self.element_instance_tag,
            object_type: self.object_type,
            sampling_rate: self.sampling_rate,
            num_front_channel_elements: self.num_front_channel_elements,
            num_side_channel_elements: self.num_side_channel_elements,
            num_back_channel_elements: self.num_back_channel_elements,
            num_lfe_channel_elements: self.num_lfe_channel_elements,
            num_assoc_data_elements: self.num_assoc_data_elements,
            num_valid_cc_elements: self.num_valid_cc_elements,
            mono_mixdown_present: self.mono_mixdown_present,
            mono_mixdown_element_number: self.mono_mixdown_element_number,
            stereo_mixdown_present: self.stereo_mixdown_present,
            stereo_mixdown_element_number: self.stereo_mixdown_element_number,
            matrix_mixdown_idx_present: self.matrix_mixdown_idx_present,
            matrix_mixdown_idx: self.matrix_mixdown_idx,
            pseudo_surround_enable: self.pseudo_surround_enable,
            front_elements: self.front_elements@,
            side_elements: self.side_elements@,
            back_elements: self.back_elements@,
            lfe_element_tags: self.lfe_element_tags@,
        }
    }
}

/// `n` channel elements, each a pair flag and a tag.
pub open spec fn elements(c: Cursor, n: nat) -> (Seq<(bool, u8)>, Cursor)
    decreases n,
{
    if n == 0 {
        (Seq::empty(), c)
    } else {
        let (found, c) = elements(c, (n - 1) as nat);
        let (is_cpe, c) = c.flag();
        let (tag, c) = c.read(4);
        (found.push((is_cpe, tag as u8)), c)
    }
}

/// `n` tags.
pub open spec fn tags(c: Cursor, n: nat) -> (Seq<u8>, Cursor)
    decreases n,
{
    if n == 0 {
        (Seq::empty(), c)
    } else {
        let (found, c) = tags(c, (n - 1) as nat);
        let (tag, c) = c.read(4);
        (found.push(tag as u8), c)
    }
}

/// The bits of channel elements, followed by `rest`.
pub open spec fn elements_before(s: Seq<(bool, u8)>, rest: Seq<bool>) -> Seq<bool>
    decreases s.len(),
{
    if s.len() == 0 {
        rest
    } else {
        elements_before(s.drop_last(), bits::flag(s.last().0, bits::field(s.last().1 as nat, 4, rest)))
    }
}

/// The bits of tags, followed by `rest`.
pub open spec fn tags_before(s: Seq<u8>, rest: Seq<bool>) -> Seq<bool>
    decreases s.len(),
{
    if s.len() == 0 {
        rest
    } else {
        tags_before(s.drop_last(), bits::field(s.last() as nat, 4, rest))
    }
}

proof fn lemma_elements_faulted(c: Cursor, i: nat, n: nat)
    requires
        i <= n,
        elements(c, i).1.fault is Some,
    ensures
        elements(c, n).1 == elements(c, i).1,
    decreases n,
{
    broadcast use crate::bitstream::group_faulted;

    if i < n {
        lemma_elements_faulted(c, i, (n - 1) as nat);
    }
}

proof fn lemma_tags_faulted(c: Cursor, i: nat, n: nat)
    requires
        i <= n,
        tags(c, i).1.fault is Some,
    ensures
        tags(c, n).1 == tags(c, i).1,
    decreases n,
{
    broadcast use crate::bitstream::group_faulted;

    if i < n {
        lemma_tags_faulted(c, i, (n - 1) as nat);
    }
}

proof fn lemma_elements_append(w: Seq<bool>, s: Seq<(bool, u8)>, rest: Seq<bool>)
    ensures
        w + elements_before(s, rest) == (w + elements_before(s, Seq::empty())) + rest,
    decreases s.len(),
{
    broadcast use crate::bits::group_append;

    if s.len() > 0 {
        let x = s.last();
        let more = bits::flag(x.0, bits::field(x.1 as nat, 4, rest));
        let end = bits::flag(x.0, bits::field(x.1 as nat, 4, Seq::empty()));
        lemma_elements_append(w, s.drop_last(), more);
        lemma_elements_append(w, s.drop_last(), end);
    }
}

proof fn lemma_tags_append(w: Seq<bool>, s: Seq<u8>, rest: Seq<bool>)
    ensures
        w + tags_before(s, rest) == (w + tags_before(s, Seq::empty())) + rest,
    decreases s.len(),
{
    broadcast use crate::bits::group_append;

    if s.len() > 0 {
        let x = s.last();
        lemma_tags_append(w, s.drop_last(), bits::field(x as nat, 4, rest));
        lemma_tags_append(w, s.drop_last(), bits::field(x as nat, 4, Seq::empty()));
    }
}

/// Whether every tag fits in its four bits.
pub open spec fn elements_fit(s: Seq<(bool, u8)>) -> bool {
    forall|i: int| 0 <= i < s.len() ==> (#[trigger] s[i]).1 < 16
}

proof fn lemma_elements_roundtrip(s: Seq<(bool, u8)>, rest: Seq<bool>)
    requires
        elements_fit(s),
    ensures
        elements(Cursor::at(elements_before(s, rest)), s.len()) == (s, Cursor::at(rest)),
    decreases s.len(),
{
    broadcast use crate::bitstream::group_read;

    lemma2_to64();
    if s.len() > 0 {
        let x = s.last();
        assert(x == s[s.len() - 1]);
        lemma_elements_roundtrip(
            s.drop_last(),
            bits::flag(x.0, bits::field(x.1 as nat, 4, rest)),
        );
        assert(s.drop_last().push(x) =~= s);
    } else {
        assert(s =~= Seq::empty());
    }
}

proof fn lemma_tags_roundtrip(s: Seq<u8>, rest: Seq<bool>)
    requires
        forall|i: int| 0 <= i < s.len() ==> #[trigger] s[i] < 16,
    ensures
        tags(Cursor::at(tags_before(s, rest)), s.len()) == (s, Cursor::at(rest)),
    decreases s.len(),
{
    broadcast use crate::bitstream::group_read;

    lemma2_to64();
    if s.len() > 0 {
        let x = s.last();
        assert(x == s[s.len() - 1]);
        lemma_tags_roundtrip(s.drop_last(), bits::field(x as nat, 4, rest));
        assert(s.drop_last().push(x) =~= s);
    } else {
        assert(s =~= Seq::empty());
    }
}

fn parse_elements(reader: &mut BitReader, n: u8) -> (r: Result<Vec<(bool, u8)>>)
    ensures
        ({
            let (found, c) = elements(old(reader).cursor(), n as nat);
            &&& final(reader)@ == c.bits
            &&& final(reader).consumed() == old(reader).position_before(c.bits)
            &&& crate::error::outcome_view(r) == c.settle(found)
        }),
{
    broadcast use crate::bitstream::group_faulted;

    let ghost start = reader.cursor();
    let mut out: Vec<(bool, u8)> = Vec::with_capacity(n as usize);
    let mut i: u8 = 0;
    while i < n
        invariant
            i <= n,
            start == old(reader).cursor(),
            elements(start, i as nat) == (out@, reader.cursor()),
            reader.consumed() == old(reader).position_before(reader@),
        decreases n - i,
    {
        proof {
            bitstream::lemma_read_faulted(reader.cursor().flag().1, 4);
            if elements(start, (i + 1) as nat).1.fault is Some {
                lemma_elements_faulted(start, (i + 1) as nat, n as nat);
            }
        }
        let is_cpe: bool = reader.read_bit()?;
        let tag: u8 = reader.read_u8(4)?;
        out.push((is_cpe, tag));
        i += 1;
    }
    Ok(out)
}

fn parse_tags(reader: &mut BitReader, n: u8) -> (r: Result<Vec<u8>>)
    ensures
        ({
            let (found, c) = tags(old(reader).cursor(), n as nat);
            &&& final(reader)@ == c.bits
            &&& final(reader).consumed() == old(reader).position_before(c.bits)
            &&& crate::error::outcome_view(r) == c.settle(found)
        }),
{
    broadcast use crate::bitstream::group_faulted;

    let ghost start = reader.cursor();
    let mut out: Vec<u8> = Vec::with_capacity(n as usize);
    let mut i: u8 = 0;
    while i < n
        invariant
            i <= n,
            start == old(reader).cursor(),
            tags(start, i as nat) == (out@, reader.cursor()),
            reader.consumed() == old(reader).position_before(reader@),
        decreases n - i,
    {
        proof {
            if tags(start, (i + 1) as nat).1.fault is Some {
                lemma_tags_faulted(start, (i + 1) as nat, n as nat);
            }
        }
        let tag: u8 = reader.read_u8(4)?;
        out.push(tag);
        i += 1;
    }
    Ok(out)
}

fn write_elements(writer: &mut BitWriter, s: &Vec<(bool, u8)>)
    ensures
        final(writer)@ == old(writer)@ + elements_before(s@, Seq::empty()),
{
    let mut i: usize = 0;
    proof {
        bits::lemma_append_nothing(writer@);
        assert(s@.take(0) =~= Seq::empty());
    }
    while i < s.len()
        invariant
            i <= s@.len(),
            writer@ == old(writer)@ + elements_before(s@.take(i as int), Seq::empty()),
        decreases s@.len() - i,
    {
        let (is_cpe, tag): (bool, u8) = s[i];
        proof {
            broadcast use crate::bits::group_append;

            let done = s@.take(i as int);
            let more = s@.take(i + 1);
            assert(more.drop_last() =~= done);
            assert(more.last() == s@[i as int]);
            lemma_elements_append(
                old(writer)@,
                done,
                bits::flag(is_cpe, bits::field(tag as nat, 4, Seq::empty())),
            );
        }
        writer.write_bit(is_cpe);
        writer.write_u8(tag, 4);
        i += 1;
    }
    assert(s@.take(i as int) =~= s@);
}

fn write_tags(writer: &mut BitWriter, s: &Vec<u8>)
    ensures
        final(writer)@ == old(writer)@ + tags_before(s@, Seq::empty()),
{
    let mut i: usize = 0;
    proof {
        bits::lemma_append_nothing(writer@);
        assert(s@.take(0) =~= Seq::empty());
    }
    while i < s.len()
        invariant
            i <= s@.len(),
            writer@ == old(writer)@ + tags_before(s@.take(i as int), Seq::empty()),
        decreases s@.len() - i,
    {
        proof {
            broadcast use crate::bits::group_append;

            let done = s@.take(i as int);
            let more = s@.take(i + 1);
            assert(more.drop_last() =~= done);
            assert(more.last() == s@[i as int]);
            lemma_tags_append(
                old(writer)@,
                done,
                bits::field(s@[i as int] as nat, 4, Seq::empty()),
            );
        }
        writer.write_u8(s[i], 4);
        i += 1;
    }
    assert(s@.take(i as int) =~= s@);
}

impl ProgramConfigElementView {
    /// The element that a bit string starts with.
    pub open spec fn decode(c: Cursor) -> (ProgramConfigElementView, Cursor) {
        let (tag, c) = c.read(4);
        let (profile, c) = c.read(2);
        let (rate, c) = c.read(4);
        let (front, c) = c.read(4);
        let (side, c) = c.read(4);
        let (back, c) = c.read(4);
        let (lfe, c) = c.read(2);
        let (data, c) = c.read(3);
        let (coupling, c) = c.read(4);
        let (mono, c) = c.flag();
        let (mono_number, c) = c.read_if(mono, 4);
        let (stereo, c) = c.flag();
        let (stereo_number, c) = c.read_if(stereo, 4);
        let (matrix, c) = c.flag();
        let (matrix_idx, c) = c.read_if(matrix, 2);
        let (surround, c) = if matrix {
            c.flag()
        } else {
            (false, c)
        };
        let (front_elements, c) = elements(c, front);
        let (side_elements, c) = elements(c, side);
        let (back_elements, c) = elements(c, back);
        let (lfe_element_tags, c) = tags(c, lfe);
        (
            ProgramConfigElementView {
                element_instance_tag: tag as u8,
                object_type: match AudioObjectType::of_code((profile + 1) as u8) {
                    Some(t) => t,
                    None => AudioObjectType::AacLc,
                },
                sampling_rate: match SamplingRate::at_index(rate as u8) {
                    Some(r) => r,
                    None => SamplingRate::Hz44100,
                },
                num_front_channel_elements: front as u8,
                num_side_channel_elements: side as u8,
                num_back_channel_elements: back as u8,
                num_lfe_channel_elements: lfe as u8,
                num_assoc_data_elements: data as u8,
                num_valid_cc_elements: coupling as u8,
                mono_mixdown_present: mono,
                mono_mixdown_element_number: mono_number as u8,
                stereo_mixdown_present: stereo,
                stereo_mixdown_element_number: stereo_number as u8,
                matrix_mixdown_idx_present: matrix,
                matrix_mixdown_idx: matrix_idx as u8,
                pseudo_surround_enable: surround,
                front_elements,
                side_elements,
                back_elements,
                lfe_element_tags,
            },
            c,
        )
    }

    /// The lists of elements, followed by `rest`.
    pub open spec fn lists_before(self, rest: Seq<bool>) -> Seq<bool> {
        elements_before(
            self.front_elements,
            elements_before(
                self.side_elements,
                elements_before(self.back_elements, tags_before(self.lfe_element_tags, rest)),
            ),
        )
    }

    /// The bits of the element, followed by `rest`. A rate that has no index
    /// is sent as 44100 Hz.
    pub open spec fn before(self, rest: Seq<bool>) -> Seq<bool> {
        let code = self.object_type.code();
        let rest = self.lists_before(rest);
        let rest = if self.matrix_mixdown_idx_present {
            bits::field(
                self.matrix_mixdown_idx as nat,
                2,
                bits::flag(self.pseudo_surround_enable, rest),
            )
        } else {
            rest
        };
        let rest = bits::flag(self.matrix_mixdown_idx_present, rest);
        let rest = bits::field_if(
            self.stereo_mixdown_present,
            self.stereo_mixdown_element_number as nat,
            4,
            rest,
        );
        let rest = bits::flag(self.stereo_mixdown_present, rest);
        let rest = bits::field_if(
            self.mono_mixdown_present,
            self.mono_mixdown_element_number as nat,
            4,
            rest,
        );
        let rest = bits::flag(self.mono_mixdown_present, rest);
        let rest = bits::field(self.num_valid_cc_elements as nat, 4, rest);
        let rest = bits::field(self.num_assoc_data_elements as nat, 3, rest);
        let rest = bits::field(self.num_lfe_channel_elements as nat, 2, rest);
        let rest = bits::field(self.num_back_channel_elements as nat, 4, rest);
        let rest = bits::field(self.num_side_channel_elements as nat, 4, rest);
        let rest = bits::field(self.num_front_channel_elements as nat, 4, rest);
        let rest = bits::field(
            match self.sampling_rate.index() {
                Some(i) => i as nat,
                None => 4,
            },
            4,
            rest,
        );
        let rest = bits::field(
            if code == 0 {
                0
            } else {
                (code - 1) as nat
            },
            2,
            rest,
        );
        bits::field(self.element_instance_tag as nat, 4, rest)
    }

    /// The bits of the element.
    pub open spec fn encode(self) -> Seq<bool> {
        self.before(Seq::empty())
    }

    /// The number of bits of the element: 34 for its counts and flags, four
    /// for the number of each mixdown element, three for a matrix mixdown, five
    /// for each channel element and four for each low frequency element.
    pub open spec fn size(self) -> int {
        34 + (if self.mono_mixdown_present {
            4int
        } else {
            0
        }) + (if self.stereo_mixdown_present {
            4int
        } else {
            0
        }) + (if self.matrix_mixdown_idx_present {
            3int
        } else {
            0
        }) + 5 * (self.front_elements.len() + self.side_elements.len() + self.back_elements.len())
            + 4 * self.lfe_element_tags.len()
    }

    /// Whether every field fits the place that the format has for it, the
    /// counts are those of the lists, and what is marked absent is zero.
    pub open spec fn representable(self) -> bool {
        &&& self.element_instance_tag < 16
        &&& 1 <= self.object_type.code() <= 4
        &&& !(self.sampling_rate is Custom)
        &&& self.num_front_channel_elements == self.front_elements.len() < 16
        &&& self.num_side_channel_elements == self.side_elements.len() < 16
        &&& self.num_back_channel_elements == self.back_elements.len() < 16
        &&& self.num_lfe_channel_elements == self.lfe_element_tags.len() < 4
        &&& self.num_assoc_data_elements < 8
        &&& self.num_valid_cc_elements < 16
        &&& self.mono_mixdown_element_number < 16
        &&& !self.mono_mixdown_present ==> self.mono_mixdown_element_number == 0
        &&& self.stereo_mixdown_element_number < 16
        &&& !self.stereo_mixdown_present ==> self.stereo_mixdown_element_number == 0
        &&& self.matrix_mixdown_idx < 4
        &&& !self.matrix_mixdown_idx_present ==> self.matrix_mixdown_idx == 0
            && !self.pseudo_surround_enable
        &&& elements_fit(self.front_elements)
        &&& elements_fit(self.side_elements)
        &&& elements_fit(self.back_elements)
        &&& forall|i: int|
            0 <= i < self.lfe_element_tags.len() ==> #[trigger] self.lfe_element_tags[i] < 16
    }
}

impl ProgramConfigElement {
    /// Parse Program Config Element from bitstream reader.
    #[verifier::rlimit(30)]
    pub fn parse(reader: &mut BitReader) -> (r: Result<Self>)
        ensures
            ({
                let (element, c) = ProgramConfigElementView::decode(old(reader).cursor());
                &&& final(reader)@ == c.bits
                &&& final(reader).consumed() == old(reader).position_before(c.bits)
                &&& crate::error::outcome_view(r) == c.settle(element)
            }),
    {
        broadcast use crate::bitstream::group_faulted;
        broadcast use crate::syntax::pce::group_lists_faulted;

        let element_instance_tag: u8 = reader.read_u8(4)?;
        let profile: u8 = reader.read_u8(2)?;
        proof {
            lemma2_to64();
        }
        let aot_id: u8 = profile + 1;
        let object_type: AudioObjectType = match AudioObjectType::from_u8(aot_id) {
            Some(t) => t,
            None => AudioObjectType::AacLc,
        };
        let sr_idx: u8 = reader.read_u8(4)?;
        let sampling_rate: SamplingRate = match SamplingRate::from_index(sr_idx) {
            Some(rate) => rate,
            None => SamplingRate::Hz44100,
        };

        let num_front_channel_elements: u8 = reader.read_u8(4)?;
        let num_side_channel_elements: u8 = reader.read_u8(4)?;
        let num_back_channel_elements: u8 = reader.read_u8(4)?;
        let num_lfe_channel_elements: u8 = reader.read_u8(2)?;
        let num_assoc_data_elements: u8 = reader.read_u8(3)?;
        let num_valid_cc_elements: u8 = reader.read_u8(4)?;

        let mono_mixdown_present: bool = reader.read_bit()?;
        let mono_mixdown_element_number: u8 = if mono_mixdown_present {
            reader.read_u8(4)?
        } else {
            0
        };

        let stereo_mixdown_present: bool = reader.read_bit()?;
        let stereo_mixdown_element_number: u8 = if stereo_mixdown_present {
            reader.read_u8(4)?
        } else {
            0
        };

        let matrix_mixdown_idx_present: bool = reader.read_bit()?;
        let mut matrix_mixdown_idx: u8 = 0;
        let mut pseudo_surround_enable: bool = false;
        if matrix_mixdown_idx_present {
            matrix_mixdown_idx = reader.read_u8(2)?;
            pseudo_surround_enable = reader.read_bit()?;
        }

        let front_elements: Vec<(bool, u8)> = parse_elements(reader, num_front_channel_elements)?;
        let side_elements: Vec<(bool, u8)> = parse_elements(reader, num_side_channel_elements)?;
        let back_elements: Vec<(bool, u8)> = parse_elements(reader, num_back_channel_elements)?;
        let lfe_element_tags: Vec<u8> = parse_tags(reader, num_lfe_channel_elements)?;

        Ok(
            Self {
                element_instance_tag,
                object_type,
                sampling_rate,
                num_front_channel_elements,
                num_side_channel_elements,
                num_back_channel_elements,
                num_lfe_channel_elements,
                num_assoc_data_elements,
                num_valid_cc_elements,
                mono_mixdown_present,
                mono_mixdown_element_number,
                stereo_mixdown_present,
                stereo_mixdown_element_number,
                matrix_mixdown_idx_present,
                matrix_mixdown_idx,
                pseudo_surround_enable,
                front_elements,
                side_elements,
                back_elements,
                lfe_element_tags,
            },
        )
    }

    /// Serialize Program Config Element into bitstream writer.
    pub fn write(&self, writer: &mut BitWriter)
        ensures
            final(writer)@ == old(writer)@ + self@.encode(),
    {
        broadcast use crate::bits::group_append;

        writer.write_u8(self.element_instance_tag, 4);
        let aot_val: u8 = self.object_type.as_u8().saturating_sub(1);
        writer.write_u8(aot_val, 2);
        let rate_index: u8 = match self.sampling_rate.to_index() {
            Some(index) => index,
            None => 4,
        };
        writer.write_u8(rate_index, 4);

        writer.write_u8(self.num_front_channel_elements, 4);
        writer.write_u8(self.num_side_channel_elements, 4);
        writer.write_u8(self.num_back_channel_elements, 4);
        writer.write_u8(self.num_lfe_channel_elements, 2);
        writer.write_u8(self.num_assoc_data_elements, 3);
        writer.write_u8(self.num_valid_cc_elements, 4);

        writer.write_bit(self.mono_mixdown_present);
        if self.mono_mixdown_present {
            writer.write_u8(self.mono_mixdown_element_number, 4);
        }
        writer.write_bit(self.stereo_mixdown_present);
        if self.stereo_mixdown_present {
            writer.write_u8(self.stereo_mixdown_element_number, 4);
        }
        writer.write_bit(self.matrix_mixdown_idx_present);
        if self.matrix_mixdown_idx_present {
            writer.write_u8(self.matrix_mixdown_idx, 2);
            writer.write_bit(self.pseudo_surround_enable);
        }
        proof {
            let w = writer@;
            let end = tags_before(self@.lfe_element_tags, Seq::empty());
            let back = elements_before(self@.back_elements, end);
            let side = elements_before(self@.side_elements, back);
            lemma_elements_append(w, self@.front_elements, side);
            let w = w + elements_before(self@.front_elements, Seq::empty());
            lemma_elements_append(w, self@.side_elements, back);
            let w = w + elements_before(self@.side_elements, Seq::empty());
            lemma_elements_append(w, self@.back_elements, end);
        }
        write_elements(writer, &self.front_elements);
        write_elements(writer, &self.side_elements);
        write_elements(writer, &self.back_elements);
        write_tags(writer, &self.lfe_element_tags);
    }
}

broadcast proof fn lemma_elements_stay_faulted(c: Cursor, n: nat)
    ensures
        c.fault is Some ==> (#[trigger] elements(c, n)).1 == c,
{
    if c.fault is Some {
        lemma_elements_faulted(c, 0, n);
    }
}

broadcast proof fn lemma_tags_stay_faulted(c: Cursor, n: nat)
    ensures
        c.fault is Some ==> (#[trigger] tags(c, n)).1 == c,
{
    if c.fault is Some {
        lemma_tags_faulted(c, 0, n);
    }
}

broadcast group group_lists_faulted {
    lemma_elements_stay_faulted,
    lemma_tags_stay_faulted,
}

proof fn lemma_elements_tail(s: Seq<(bool, u8)>, rest: Seq<bool>, tail: Seq<bool>)
    ensures
        elements_before(s, rest) + tail == elements_before(s, rest + tail),
    decreases s.len(),
{
    broadcast use crate::bits::group_tail;

    if s.len() > 0 {
        let x = s.last();
        lemma_elements_tail(
            s.drop_last(),
            bits::flag(x.0, bits::field(x.1 as nat, 4, rest)),
            tail,
        );
    }
}

proof fn lemma_tags_tail(s: Seq<u8>, rest: Seq<bool>, tail: Seq<bool>)
    ensures
        tags_before(s, rest) + tail == tags_before(s, rest + tail),
    decreases s.len(),
{
    broadcast use crate::bits::group_tail;

    if s.len() > 0 {
        lemma_tags_tail(s.drop_last(), bits::field(s.last() as nat, 4, rest), tail);
    }
}

proof fn lemma_pce_tail(p: ProgramConfigElementView, tail: Seq<bool>)
    ensures
        p.encode() + tail == p.before(tail),
{
    broadcast use crate::bits::group_tail;

    let none = Seq::<bool>::empty();
    let end = tags_before(p.lfe_element_tags, none);
    let back = elements_before(p.back_elements, end);
    let side = elements_before(p.side_elements, back);
    lemma_elements_tail(p.front_elements, side, tail);
    lemma_elements_tail(p.side_elements, back, tail);
    lemma_elements_tail(p.back_elements, end, tail);
    lemma_tags_tail(p.lfe_element_tags, none, tail);
}

/// An element comes back unchanged from the bits it was written to, whatever
/// follows them, and the bits that follow are left alone.
pub proof fn law_pce_roundtrip(p: ProgramConfigElementView, tail: Seq<bool>)
    requires
        p.representable(),
    ensures
        ProgramConfigElementView::decode(Cursor::at(p.encode() + tail)) == (p, Cursor::at(tail)),
{
    lemma_pce_tail(p, tail);
    lemma2_to64();
    lemma_object_type(p.object_type);
    lemma_rate(p.sampling_rate);
    let end = tags_before(p.lfe_element_tags, tail);
    let back = elements_before(p.back_elements, end);
    let side = elements_before(p.side_elements, back);
    lemma_elements_roundtrip(p.front_elements, side);
    lemma_elements_roundtrip(p.side_elements, back);
    lemma_elements_roundtrip(p.back_elements, end);
    lemma_tags_roundtrip(p.lfe_element_tags, tail);
    let r0 = p.lists_before(tail);
    let r1 = bits::flag(p.pseudo_surround_enable, r0);
    bitstream::lemma_read_flag(p.pseudo_surround_enable, r0);
    bitstream::lemma_read_field(p.matrix_mixdown_idx as nat, 2, r1);
    let r2 = if p.matrix_mixdown_idx_present {
        bits::field(p.matrix_mixdown_idx as nat, 2, r1)
    } else {
        r0
    };
    bitstream::lemma_read_flag(p.matrix_mixdown_idx_present, r2);
    let r3 = bits::flag(p.matrix_mixdown_idx_present, r2);
    bitstream::lemma_read_field(p.stereo_mixdown_element_number as nat, 4, r3);
    let r4 = bits::field_if(
        p.stereo_mixdown_present,
        p.stereo_mixdown_element_number as nat,
        4,
        r3,
    );
    bitstream::lemma_read_flag(p.stereo_mixdown_present, r4);
    let r5 = bits::flag(p.stereo_mixdown_present, r4);
    bitstream::lemma_read_field(p.mono_mixdown_element_number as nat, 4, r5);
    let r6 = bits::field_if(p.mono_mixdown_present, p.mono_mixdown_element_number as nat, 4, r5);
    bitstream::lemma_read_flag(p.mono_mixdown_present, r6);
    let r7 = bits::flag(p.mono_mixdown_present, r6);
    bitstream::lemma_read_field(p.num_valid_cc_elements as nat, 4, r7);
    let r8 = bits::field(p.num_valid_cc_elements as nat, 4, r7);
    bitstream::lemma_read_field(p.num_assoc_data_elements as nat, 3, r8);
    let r9 = bits::field(p.num_assoc_data_elements as nat, 3, r8);
    bitstream::lemma_read_field(p.num_lfe_channel_elements as nat, 2, r9);
    let r10 = bits::field(p.num_lfe_channel_elements as nat, 2, r9);
    bitstream::lemma_read_field(p.num_back_channel_elements as nat, 4, r10);
    let r11 = bits::field(p.num_back_channel_elements as nat, 4, r10);
    bitstream::lemma_read_field(p.num_side_channel_elements as nat, 4, r11);
    let r12 = bits::field(p.num_side_channel_elements as nat, 4, r11);
    bitstream::lemma_read_field(p.num_front_channel_elements as nat, 4, r12);
    let r13 = bits::field(p.num_front_channel_elements as nat, 4, r12);
    bitstream::lemma_read_field(p.sampling_rate.index()->0 as nat, 4, r13);
    let r14 = bits::field(p.sampling_rate.index()->0 as nat, 4, r13);
    bitstream::lemma_read_field((p.object_type.code() - 1) as nat, 2, r14);
    let r15 = bits::field((p.object_type.code() - 1) as nat, 2, r14);
    bitstream::lemma_read_field(p.element_instance_tag as nat, 4, r15);
}

proof fn lemma_elements_len(s: Seq<(bool, u8)>, rest: Seq<bool>)
    ensures
        elements_before(s, rest).len() == 5 * s.len() + rest.len(),
    decreases s.len(),
{
    broadcast use crate::bits::broadcast_uint_len;

    reveal(bits::field);
    reveal(bits::flag);
    if s.len() > 0 {
        let x = s.last();
        lemma_elements_len(s.drop_last(), bits::flag(x.0, bits::field(x.1 as nat, 4, rest)));
    }
}

proof fn lemma_tags_len(s: Seq<u8>, rest: Seq<bool>)
    ensures
        tags_before(s, rest).len() == 4 * s.len() + rest.len(),
    decreases s.len(),
{
    broadcast use crate::bits::broadcast_uint_len;

    reveal(bits::field);
    if s.len() > 0 {
        lemma_tags_len(s.drop_last(), bits::field(s.last() as nat, 4, rest));
    }
}

/// Every element takes as many bits as its size says.
pub proof fn law_pce_size(p: ProgramConfigElementView)
    ensures
        p.encode().len() == p.size(),
{
    broadcast use crate::bits::broadcast_uint_len;

    let none = Seq::<bool>::empty();
    let end = tags_before(p.lfe_element_tags, none);
    let back = elements_before(p.back_elements, end);
    let side = elements_before(p.side_elements, back);
    lemma_elements_len(p.front_elements, side);
    lemma_elements_len(p.side_elements, back);
    lemma_elements_len(p.back_elements, end);
    lemma_tags_len(p.lfe_element_tags, none);
    reveal(bits::field);
    reveal(bits::flag);
}

proof fn lemma_elements_passed(c: Cursor, n: nat)
    requires
        elements(c, n).1.fault is None,
    ensures
        c.fault is None,
        elements(c, n).0.len() == n,
        elements(c, n).1.bits.len() + 5 * n == c.bits.len(),
    decreases n,
{
    broadcast use crate::bitstream::group_shortens;

    if n > 0 {
        lemma_elements_passed(c, (n - 1) as nat);
    }
}

proof fn lemma_tags_passed(c: Cursor, n: nat)
    requires
        tags(c, n).1.fault is None,
    ensures
        c.fault is None,
        tags(c, n).0.len() == n,
        tags(c, n).1.bits.len() + 4 * n == c.bits.len(),
    decreases n,
{
    broadcast use crate::bitstream::group_shortens;

    if n > 0 {
        lemma_tags_passed(c, (n - 1) as nat);
    }
}

/// Whatever the bits, an element that is read was as many bits long as it
/// takes to write it.
pub proof fn law_pce_takes_its_size(c: Cursor)
    requires
        ProgramConfigElementView::decode(c).1.fault is None,
    ensures
        ({
            let (p, rest) = ProgramConfigElementView::decode(c);
            c.bits.len() - rest.bits.len() == p.encode().len()
        }),
{
    broadcast use crate::bitstream::group_shortens;

    let (p, rest) = ProgramConfigElementView::decode(c);
    law_pce_size(p);
    let (tag, c) = c.read(4);
    let (profile, c) = c.read(2);
    let (rate, c) = c.read(4);
    let (front, c) = c.read(4);
    let (side, c) = c.read(4);
    let (back, c) = c.read(4);
    let (lfe, c) = c.read(2);
    let (data, c) = c.read(3);
    let (coupling, c) = c.read(4);
    let (mono, c) = c.flag();
    let (mono_number, c) = c.read_if(mono, 4);
    let (stereo, c) = c.flag();
    let (stereo_number, c) = c.read_if(stereo, 4);
    let (matrix, c) = c.flag();
    let (matrix_idx, c) = c.read_if(matrix, 2);
    let (surround, c) = if matrix {
        c.flag()
    } else {
        (false, c)
    };
    let (_, c1) = elements(c, front);
    let (_, c2) = elements(c1, side);
    let (_, c3) = elements(c2, back);
    lemma_tags_passed(c3, lfe);
    lemma_elements_passed(c2, back);
    lemma_elements_passed(c1, side);
    lemma_elements_passed(c, front);
}

proof fn lemma_object_type(t: AudioObjectType)
    requires
        1 <= t.code() <= 4,
    ensures
        AudioObjectType::of_code(t.code()) == Some(t),
{
}

proof fn lemma_rate(r: SamplingRate)
    requires
        !(r is Custom),
    ensures
        r.index() is Some,
        r.index()->0 < 13,
        SamplingRate::at_index(r.index()->0) == Some(r),
{
}

} // verus!
