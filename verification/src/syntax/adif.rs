//! Audio Data Interchange Format (ADIF) header parser.
//!
//! Parses ADIF file headers, which hold the copyright
//! identification, bitstream type, and the program configurations.

use crate::bits;
use crate::bitstream;
use crate::bitstream::{BitReader, BitWriter, Cursor};
use crate::error::{Error, ErrorView, FormatError, FormatErrorView, Result};
use crate::syntax::asc;
use crate::syntax::asc::AudioSpecificConfig;
use crate::text;
use vstd::arithmetic::power2::*;
use vstd::prelude::*;

verus! {

/// ADIF header structure.
#[derive(Debug, Clone, PartialEq)]
pub struct AdifHeader {
    pub copyright_id_present: bool,
    pub copyright_id: [u8; 9],
    pub original_copy: bool,
    pub home: bool,
    /// False for a constant rate, true for a variable rate.
    pub bitstream_type: bool,
    pub bitrate: u32,
    pub num_program_config_elements: u8,
    pub buffer_fullness: u32,
    pub configs: Vec<AudioSpecificConfig>,
}

/// What an [`AdifHeader`] says.
#[verifier::ext_equal]
pub struct AdifHeaderView {
    pub copyright_id_present: bool,
    pub copyright_id: Seq<u8>,
    pub original_copy: bool,
    pub home: bool,
    pub bitstream_type: bool,
    pub bitrate: u32,
    pub num_program_config_elements: u8,
    pub buffer_fullness: u32,
    pub configs: Seq<AudioSpecificConfig>,
}

impl View for AdifHeader {
    type V = AdifHeaderView;

    open spec fn view(&self) -> AdifHeaderView {
        AdifHeaderView {
            copyright_id_present: self.copyright_id_present,
            copyright_id: self.copyright_id@,
            original_copy: self.original_copy,
            home: self.home,
            bitstream_type: self.bitstream_type,
            bitrate: self.bitrate,
            num_program_config_elements: self.num_program_config_elements,
            buffer_fullness: self.buffer_fullness,
            configs: self.configs@,
        }
    }
}

pub open spec fn invalid_adif(message: Seq<char>) -> ErrorView {
    ErrorView::Format(FormatErrorView::InvalidAdif(message))
}

/// `n` bytes.
pub open spec fn octets(c: Cursor, n: nat) -> (Seq<u8>, Cursor)
    decreases n,
{
    if n == 0 {
        (Seq::empty(), c)
    } else {
        let (found, c) = octets(c, (n - 1) as nat);
        let (byte, c) = c.read(8);
        (found.push(byte as u8), c)
    }
}

/// `n` configurations.
pub open spec fn configs(c: Cursor, n: nat) -> (Seq<AudioSpecificConfig>, Cursor)
    decreases n,
{
    if n == 0 {
        (Seq::empty(), c)
    } else {
        let (found, c) = configs(c, (n - 1) as nat);
        let (config, c) = AudioSpecificConfig::decode(c);
        (found.push(config), c)
    }
}

/// The bits of bytes, followed by `rest`.
pub open spec fn octets_before(s: Seq<u8>, rest: Seq<bool>) -> Seq<bool>
    decreases s.len(),
{
    if s.len() == 0 {
        rest
    } else {
        octets_before(s.drop_last(), bits::field(s.last() as nat, 8, rest))
    }
}

/// The bits of configurations, followed by `rest`.
pub open spec fn configs_before(s: Seq<AudioSpecificConfig>, rest: Seq<bool>) -> Seq<bool>
    decreases s.len(),
{
    if s.len() == 0 {
        rest
    } else {
        configs_before(s.drop_last(), s.last().before(rest))
    }
}

proof fn lemma_octets_faulted(c: Cursor, i: nat, n: nat)
    requires
        i <= n,
        octets(c, i).1.fault is Some,
    ensures
        octets(c, n).1 == octets(c, i).1,
    decreases n,
{
    broadcast use crate::bitstream::group_faulted;

    if i < n {
        lemma_octets_faulted(c, i, (n - 1) as nat);
    }
}

proof fn lemma_configs_faulted(c: Cursor, i: nat, n: nat)
    requires
        i <= n,
        configs(c, i).1.fault is Some,
    ensures
        configs(c, n).1 == configs(c, i).1,
    decreases n,
{
    broadcast use crate::syntax::asc::lemma_asc_faulted;

    if i < n {
        lemma_configs_faulted(c, i, (n - 1) as nat);
    }
}

proof fn lemma_octets_append(w: Seq<bool>, s: Seq<u8>, rest: Seq<bool>)
    ensures
        w + octets_before(s, rest) == (w + octets_before(s, Seq::empty())) + rest,
    decreases s.len(),
{
    broadcast use crate::bits::group_append;

    if s.len() > 0 {
        let x = s.last() as nat;
        lemma_octets_append(w, s.drop_last(), bits::field(x, 8, rest));
        lemma_octets_append(w, s.drop_last(), bits::field(x, 8, Seq::empty()));
    }
}

proof fn lemma_configs_append(w: Seq<bool>, s: Seq<AudioSpecificConfig>, rest: Seq<bool>)
    ensures
        w + configs_before(s, rest) == (w + configs_before(s, Seq::empty())) + rest,
    decreases s.len(),
{
    bits::lemma_append_nothing(w);
    if s.len() > 0 {
        let x = s.last();
        lemma_configs_append(w, s.drop_last(), x.before(rest));
        lemma_configs_append(w, s.drop_last(), x.encode());
        asc::lemma_asc_append(w + configs_before(s.drop_last(), Seq::empty()), x, rest);
    }
}

proof fn lemma_octets_tail(s: Seq<u8>, rest: Seq<bool>, tail: Seq<bool>)
    ensures
        octets_before(s, rest) + tail == octets_before(s, rest + tail),
    decreases s.len(),
{
    broadcast use crate::bits::group_tail;

    if s.len() > 0 {
        lemma_octets_tail(s.drop_last(), bits::field(s.last() as nat, 8, rest), tail);
    }
}

proof fn lemma_configs_tail(s: Seq<AudioSpecificConfig>, rest: Seq<bool>, tail: Seq<bool>)
    ensures
        configs_before(s, rest) + tail == configs_before(s, rest + tail),
    decreases s.len(),
{
    if s.len() > 0 {
        lemma_configs_tail(s.drop_last(), s.last().before(rest), tail);
        asc::lemma_asc_tail(s.last(), rest, tail);
    }
}

proof fn lemma_octets_roundtrip(s: Seq<u8>, rest: Seq<bool>)
    ensures
        octets(Cursor::at(octets_before(s, rest)), s.len()) == (s, Cursor::at(rest)),
    decreases s.len(),
{
    broadcast use crate::bitstream::group_read;

    lemma2_to64();
    if s.len() > 0 {
        lemma_octets_roundtrip(s.drop_last(), bits::field(s.last() as nat, 8, rest));
        assert(s.drop_last().push(s.last()) =~= s);
    } else {
        assert(s =~= Seq::empty());
    }
}

proof fn lemma_configs_roundtrip(s: Seq<AudioSpecificConfig>, rest: Seq<bool>)
    requires
        forall|i: int| 0 <= i < s.len() ==> (#[trigger] s[i]).representable(),
    ensures
        configs(Cursor::at(configs_before(s, rest)), s.len()) == (s, Cursor::at(rest)),
    decreases s.len(),
{
    if s.len() > 0 {
        assert(s.last() == s[s.len() - 1]);
        lemma_configs_roundtrip(s.drop_last(), s.last().before(rest));
        asc::law_asc_roundtrip(s.last(), rest);
        assert(s.drop_last().push(s.last()) =~= s);
    } else {
        assert(s =~= Seq::empty());
    }
}

impl AdifHeaderView {
    /// The header that a bit string starts with.
    pub open spec fn decode(c: Cursor) -> (AdifHeaderView, Cursor) {
        let (sync, c) = c.read(32);
        let c = c.fail_if(
            sync != AdifHeader::SYNCWORD,
            invalid_adif("Invalid syncword: "@ + text::hex_text(sync, 8)),
        );
        let (copyrighted, c) = c.flag();
        let (id, c) = if copyrighted {
            octets(c, 9)
        } else {
            (Seq::new(9, |i: int| 0u8), c)
        };
        let (original, c) = c.flag();
        let (home, c) = c.flag();
        let (variable, c) = c.flag();
        let (bitrate, c) = c.read(23);
        let (programs, c) = c.read(4);
        let (fullness, c) = c.read_if(!variable, 20);
        let (found, c) = configs(c, programs + 1);
        (
            AdifHeaderView {
                copyright_id_present: copyrighted,
                copyright_id: id,
                original_copy: original,
                home,
                bitstream_type: variable,
                bitrate: bitrate as u32,
                num_program_config_elements: (programs + 1) as u8,
                buffer_fullness: fullness as u32,
                configs: found,
            },
            c,
        )
    }

    /// The bits of the header, followed by `rest`.
    pub open spec fn before(self, rest: Seq<bool>) -> Seq<bool> {
        let n = self.num_program_config_elements;
        let rest = configs_before(self.configs, rest);
        let rest = bits::field_if(!self.bitstream_type, self.buffer_fullness as nat, 20, rest);
        let rest = bits::field(
            if n == 0 {
                0
            } else {
                (n - 1) as nat
            },
            4,
            rest,
        );
        let rest = bits::field(self.bitrate as nat, 23, rest);
        let rest = bits::flag(self.bitstream_type, rest);
        let rest = bits::flag(self.home, rest);
        let rest = bits::flag(self.original_copy, rest);
        let rest = if self.copyright_id_present {
            octets_before(self.copyright_id, rest)
        } else {
            rest
        };
        let rest = bits::flag(self.copyright_id_present, rest);
        bits::field(AdifHeader::SYNCWORD as nat, 32, rest)
    }

    /// The bits of the header.
    pub open spec fn encode(self) -> Seq<bool> {
        self.before(Seq::empty())
    }

    /// Whether every field fits the place that the format has for it, the
    /// count is that of the list, and what is not transmitted is zero.
    pub open spec fn representable(self) -> bool {
        &&& self.copyright_id.len() == 9
        &&& !self.copyright_id_present ==> self.copyright_id == Seq::new(9, |i: int| 0u8)
        &&& self.bitrate < 0x80_0000
        &&& 1 <= self.num_program_config_elements <= 16
        &&& self.configs.len() == self.num_program_config_elements
        &&& self.buffer_fullness < 0x10_0000
        &&& self.bitstream_type ==> self.buffer_fullness == 0
        &&& forall|i: int|
            0 <= i < self.configs.len() ==> (#[trigger] self.configs[i]).representable()
    }
}

impl AdifHeader {
    /// ADIF syncword: 'ADIF' in ASCII (0x41444946).
    pub const SYNCWORD: u32 = 0x41444946;

    fn parse_octets(reader: &mut BitReader) -> (r: Result<[u8; 9]>)
        ensures
            ({
                let (found, c) = octets(old(reader).cursor(), 9);
                &&& final(reader)@ == c.bits
                &&& final(reader).consumed() == old(reader).position_before(c.bits)
                &&& match r {
                    Ok(x) => c.fault is None && x@ == found,
                    Err(e) => c.fault == Some(e@),
                }
            }),
    {
        let ghost start = reader.cursor();
        let mut out: [u8; 9] = [0u8;9];
        let mut i: usize = 0;
        assert(out@.take(0) =~= Seq::<u8>::empty());
        while i < 9
            invariant
                i <= 9,
                start == old(reader).cursor(),
                octets(start, i as nat) == (out@.take(i as int), reader.cursor()),
                reader.consumed() == old(reader).position_before(reader@),
            decreases 9 - i,
        {
            proof {
                if octets(start, (i + 1) as nat).1.fault is Some {
                    lemma_octets_faulted(start, (i + 1) as nat, 9);
                }
            }
            let byte: u8 = reader.read_u8(8)?;
            let ghost before = out@;
            out[i] = byte;
            assert(out@.take(i + 1) =~= before.take(i as int).push(byte));
            i += 1;
        }
        assert(out@.take(9) =~= out@);
        Ok(out)
    }

    fn parse_configs(reader: &mut BitReader, n: u8) -> (r: Result<Vec<AudioSpecificConfig>>)
        ensures
            ({
                let (found, c) = configs(old(reader).cursor(), n as nat);
                &&& final(reader)@ == c.bits
                &&& final(reader).consumed() == old(reader).position_before(c.bits)
                &&& crate::error::outcome_view(r) == c.settle(found)
            }),
    {
        let ghost start = reader.cursor();
        let mut out: Vec<AudioSpecificConfig> = Vec::with_capacity(n as usize);
        let mut i: u8 = 0;
        while i < n
            invariant
                i <= n,
                start == old(reader).cursor(),
                configs(start, i as nat) == (out@, reader.cursor()),
                reader.consumed() == old(reader).position_before(reader@),
            decreases n - i,
        {
            proof {
                if configs(start, (i + 1) as nat).1.fault is Some {
                    lemma_configs_faulted(start, (i + 1) as nat, n as nat);
                }
            }
            let config: AudioSpecificConfig = AudioSpecificConfig::parse(reader)?;
            out.push(config);
            i += 1;
        }
        Ok(out)
    }

    /// Parse ADIF header from bitstream reader.
    pub fn parse(reader: &mut BitReader) -> (r: Result<Self>)
        ensures
            ({
                let (header, c) = AdifHeaderView::decode(old(reader).cursor());
                &&& final(reader)@ == c.bits
                &&& final(reader).consumed() == old(reader).position_before(c.bits)
                &&& crate::error::outcome_view(r) == c.settle(header)
            }),
    {
        broadcast use crate::bitstream::group_faulted;
        broadcast use crate::syntax::adif::group_lists_faulted;

        let sync: u32 = reader.read_u32(32)?;
        if sync != Self::SYNCWORD {
            let mut message: String = String::new();
            message.append("Invalid syncword: ");
            message.append(text::hex(sync as u64, 8).as_str());
            return Err(Error::Format(FormatError::InvalidAdif(message)));
        }
        let copyright_id_present: bool = reader.read_bit()?;
        let mut copyright_id: [u8; 9] = [0u8;9];
        assert(copyright_id@ =~= Seq::new(9, |i: int| 0u8));
        if copyright_id_present {
            copyright_id = Self::parse_octets(reader)?;
        }
        let original_copy: bool = reader.read_bit()?;
        let home: bool = reader.read_bit()?;
        let bitstream_type: bool = reader.read_bit()?;
        let bitrate: u32 = reader.read_u32(23)?;
        let programs: u8 = reader.read_u8(4)?;
        proof {
            lemma2_to64();
        }
        let num_program_config_elements: u8 = programs + 1;

        let buffer_fullness: u32 = if !bitstream_type {
            reader.read_u32(20)?
        } else {
            0
        };

        let configs: Vec<AudioSpecificConfig> = Self::parse_configs(
            reader,
            num_program_config_elements,
        )?;

        Ok(
            Self {
                copyright_id_present,
                copyright_id,
                original_copy,
                home,
                bitstream_type,
                bitrate,
                num_program_config_elements,
                buffer_fullness,
                configs,
            },
        )
    }

    /// Serialize ADIF header into bitstream writer.
    pub fn write(&self, writer: &mut BitWriter)
        ensures
            final(writer)@ == old(writer)@ + self@.encode(),
    {
        broadcast use crate::bits::group_append;

        writer.write_u32(Self::SYNCWORD, 32);
        writer.write_bit(self.copyright_id_present);
        if self.copyright_id_present {
            proof {
                let rest = configs_before(self@.configs, Seq::empty());
                let rest = bits::field_if(
                    !self.bitstream_type,
                    self.buffer_fullness as nat,
                    20,
                    rest,
                );
                let n = self.num_program_config_elements;
                let rest = bits::field(
                    if n == 0 {
                        0
                    } else {
                        (n - 1) as nat
                    },
                    4,
                    rest,
                );
                let rest = bits::field(self.bitrate as nat, 23, rest);
                let rest = bits::flag(self.bitstream_type, rest);
                let rest = bits::flag(self.home, rest);
                let rest = bits::flag(self.original_copy, rest);
                lemma_octets_append(writer@, self@.copyright_id, rest);
            }
            self.write_octets(writer);
        }
        writer.write_bit(self.original_copy);
        writer.write_bit(self.home);
        writer.write_bit(self.bitstream_type);
        writer.write_u32(self.bitrate, 23);
        writer.write_u8(self.num_program_config_elements.saturating_sub(1), 4);

        if !self.bitstream_type {
            writer.write_u32(self.buffer_fullness, 20);
        }
        self.write_configs(writer);
    }

    fn write_octets(&self, writer: &mut BitWriter)
        ensures
            final(writer)@ == old(writer)@ + octets_before(self.copyright_id@, Seq::empty()),
    {
        let mut i: usize = 0;
        proof {
            bits::lemma_append_nothing(writer@);
            assert(self.copyright_id@.take(0) =~= Seq::empty());
        }
        while i < 9
            invariant
                i <= 9,
                writer@ == old(writer)@ + octets_before(
                    self.copyright_id@.take(i as int),
                    Seq::empty(),
                ),
            decreases 9 - i,
        {
            proof {
                broadcast use crate::bits::group_append;

                let done = self.copyright_id@.take(i as int);
                let more = self.copyright_id@.take(i + 1);
                assert(more.drop_last() =~= done);
                assert(more.last() == self.copyright_id@[i as int]);
                lemma_octets_append(
                    old(writer)@,
                    done,
                    bits::field(self.copyright_id@[i as int] as nat, 8, Seq::empty()),
                );
            }
            writer.write_u8(self.copyright_id[i], 8);
            i += 1;
        }
        assert(self.copyright_id@.take(9) =~= self.copyright_id@);
    }

    fn write_configs(&self, writer: &mut BitWriter)
        ensures
            final(writer)@ == old(writer)@ + configs_before(self.configs@, Seq::empty()),
    {
        let mut i: usize = 0;
        proof {
            bits::lemma_append_nothing(writer@);
            assert(self.configs@.take(0) =~= Seq::empty());
        }
        while i < self.configs.len()
            invariant
                i <= self.configs@.len(),
                writer@ == old(writer)@ + configs_before(
                    self.configs@.take(i as int),
                    Seq::empty(),
                ),
            decreases self.configs@.len() - i,
        {
            proof {
                let done = self.configs@.take(i as int);
                let more = self.configs@.take(i + 1);
                assert(more.drop_last() =~= done);
                assert(more.last() == self.configs@[i as int]);
                lemma_configs_append(old(writer)@, done, self.configs@[i as int].encode());
            }
            self.configs[i].write(writer);
            i += 1;
        }
        assert(self.configs@.take(i as int) =~= self.configs@);
    }
}

broadcast proof fn lemma_octets_stay_faulted(c: Cursor, n: nat)
    ensures
        c.fault is Some ==> (#[trigger] octets(c, n)).1 == c,
{
    if c.fault is Some {
        lemma_octets_faulted(c, 0, n);
    }
}

broadcast proof fn lemma_configs_stay_faulted(c: Cursor, n: nat)
    ensures
        c.fault is Some ==> (#[trigger] configs(c, n)).1 == c,
{
    if c.fault is Some {
        lemma_configs_faulted(c, 0, n);
    }
}

broadcast group group_lists_faulted {
    lemma_octets_stay_faulted,
    lemma_configs_stay_faulted,
}

/// A header comes back unchanged from the bits it was written to, whatever
/// follows them, and the bits that follow are left alone.
pub proof fn law_adif_roundtrip(h: AdifHeaderView, tail: Seq<bool>)
    requires
        h.representable(),
    ensures
        AdifHeaderView::decode(Cursor::at(h.encode() + tail)) == (h, Cursor::at(tail)),
{
    let n = h.num_program_config_elements;
    assert(h.encode() + tail == h.before(tail)) by {
        broadcast use crate::bits::group_tail;

        let none = Seq::<bool>::empty();
        lemma_configs_tail(h.configs, none, tail);
        let rest = configs_before(h.configs, none);
        let rest = bits::field_if(!h.bitstream_type, h.buffer_fullness as nat, 20, rest);
        let rest = bits::field((n - 1) as nat, 4, rest);
        let rest = bits::field(h.bitrate as nat, 23, rest);
        let rest = bits::flag(h.bitstream_type, rest);
        let rest = bits::flag(h.home, rest);
        let rest = bits::flag(h.original_copy, rest);
        lemma_octets_tail(h.copyright_id, rest, tail);
    }
    lemma2_to64();
    lemma2_to64_rest();
    lemma_configs_roundtrip(h.configs, tail);
    let r0 = configs_before(h.configs, tail);
    bitstream::lemma_read_field(h.buffer_fullness as nat, 20, r0);
    let r1 = bits::field_if(!h.bitstream_type, h.buffer_fullness as nat, 20, r0);
    bitstream::lemma_read_field((n - 1) as nat, 4, r1);
    let r2 = bits::field((n - 1) as nat, 4, r1);
    bitstream::lemma_read_field(h.bitrate as nat, 23, r2);
    let r3 = bits::field(h.bitrate as nat, 23, r2);
    bitstream::lemma_read_flag(h.bitstream_type, r3);
    let r4 = bits::flag(h.bitstream_type, r3);
    bitstream::lemma_read_flag(h.home, r4);
    let r5 = bits::flag(h.home, r4);
    bitstream::lemma_read_flag(h.original_copy, r5);
    let r6 = bits::flag(h.original_copy, r5);
    lemma_octets_roundtrip(h.copyright_id, r6);
    let r7 = if h.copyright_id_present {
        octets_before(h.copyright_id, r6)
    } else {
        r6
    };
    bitstream::lemma_read_flag(h.copyright_id_present, r7);
    let r8 = bits::flag(h.copyright_id_present, r7);
    bitstream::lemma_read_field(AdifHeader::SYNCWORD as nat, 32, r8);
}

/// The number of bits of configurations.
pub open spec fn configs_size(s: Seq<AudioSpecificConfig>) -> int
    decreases s.len(),
{
    if s.len() == 0 {
        0
    } else {
        configs_size(s.drop_last()) + s.last().encode().len()
    }
}

proof fn lemma_configs_len(s: Seq<AudioSpecificConfig>, rest: Seq<bool>)
    ensures
        configs_before(s, rest).len() == configs_size(s) + rest.len(),
    decreases s.len(),
{
    if s.len() > 0 {
        lemma_configs_len(s.drop_last(), s.last().before(rest));
        asc::lemma_asc_tail(s.last(), Seq::empty(), rest);
        assert(Seq::<bool>::empty() + rest =~= rest);
    }
}

proof fn lemma_octets_len(s: Seq<u8>, rest: Seq<bool>)
    ensures
        octets_before(s, rest).len() == 8 * s.len() + rest.len(),
    decreases s.len(),
{
    broadcast use crate::bits::broadcast_uint_len;

    reveal(bits::field);
    if s.len() > 0 {
        lemma_octets_len(s.drop_last(), bits::field(s.last() as nat, 8, rest));
    }
}

/// A header takes 63 bits, eight for each byte of a copyright identifier,
/// twenty for the buffer of a constant rate, and those of its configurations.
pub proof fn law_adif_size(h: AdifHeaderView)
    ensures
        h.encode().len() == 63 + (if h.copyright_id_present {
            8 * h.copyright_id.len() as int
        } else {
            0
        }) + (if h.bitstream_type {
            0int
        } else {
            20
        }) + configs_size(h.configs),
{
    broadcast use crate::bits::broadcast_uint_len;

    let rest = configs_before(h.configs, Seq::empty());
    lemma_configs_len(h.configs, Seq::empty());
    let n = h.num_program_config_elements;
    let rest = bits::field_if(!h.bitstream_type, h.buffer_fullness as nat, 20, rest);
    let rest = bits::field(
        if n == 0 {
            0
        } else {
            (n - 1) as nat
        },
        4,
        rest,
    );
    let rest = bits::field(h.bitrate as nat, 23, rest);
    let rest = bits::flag(h.bitstream_type, rest);
    let rest = bits::flag(h.home, rest);
    let rest = bits::flag(h.original_copy, rest);
    lemma_octets_len(h.copyright_id, rest);
    reveal(bits::field);
    reveal(bits::flag);
}

/// A header reads back from the bytes it was written to, and what is left is
/// the padding of the last byte.
pub proof fn law_adif_reads_back(h: AdifHeaderView, bytes: Seq<u8>)
    requires
        h.representable(),
        bits::bytes(bytes) == bits::padded(h.encode()),
    ensures
        AdifHeaderView::decode(Cursor::at(bits::bytes(bytes))) == (
            h,
            Cursor::at(bits::zeros(bits::padding(h.encode().len()))),
        ),
{
    law_adif_roundtrip(h, bits::zeros(bits::padding(h.encode().len())));
}

/// Whatever does not start with the syncword is refused as no header.
pub proof fn law_adif_needs_its_syncword(s: Seq<bool>)
    requires
        s.len() >= 32,
        bits::value(s.take(32)) != AdifHeader::SYNCWORD,
    ensures
        AdifHeaderView::decode(Cursor::at(s)).1.fault == Some(
            invalid_adif("Invalid syncword: "@ + text::hex_text(bits::value(s.take(32)), 8)),
        ),
{
    broadcast use crate::bitstream::group_faulted;
    broadcast use crate::syntax::adif::group_lists_faulted;

    reveal(Cursor::read);
}

} // verus!
