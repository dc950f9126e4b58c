//! The bitstream side of the frequency domain (FD) decoder.
//!
//! A channel's block is its gain, the noise filling parameters, one
//! Huffman-coded scalefactor delta per remaining band, the noise shaping
//! filter, and the arithmetic-coded spectrum. Every band keeps a scalefactor
//! of its own and is scaled with that one; a band that was coded as all zero
//! and lies high enough is filled with noise.

use crate::bits;
use crate::bitstream;
use crate::bitstream::{BitReader, Cursor};
use crate::decoder::aac::huffman as huffman;
use crate::decoder::aac::huffman::decode_scalefactor_delta;
use crate::decoder::aac::inverse;
use crate::decoder::aac::inverse::ReadFilter;
use crate::decoder::usac::arith;
use crate::decoder::usac::arith::{dequantize, linear, try_decode_pairs};
use crate::decoder::usac::inverse as pairs;
use crate::encoder::aac::huffman::{Codes, EncodeTables};
use crate::encoder::aac::ics;
use crate::encoder::aac::quant::SF_OFFSET;
use crate::encoder::usac::arith as encoding;
use crate::encoder::usac::fd as writing;
use crate::encoder::usac::fd::{
    noise_bands, FdChannel, FRAME_LEN, FRAME_PAIRS, NEUTRAL_NOISE_OFFSET,
};
use crate::encoder::usac::tns::{TnsFilter, TnsSetup};
use crate::error::{ErrorView, Result};
use crate::tables::usac_arith::{ArithTables, Contexts, History, Model};
use vstd::arithmetic::power2::{lemma2_to64, pow2};
use vstd::prelude::*;

verus! {

/// The most bands whose scalefactors are sure to fit 32 bits.
pub const MAX_BANDS: usize = 0x100_0000;

/// The scalefactors of `n` bands: the first is the gain, and each further one
/// is counted from the one before it.
pub open spec fn read_scalefactors(codes: Codes, gain: int, c: Cursor, n: nat) -> (Seq<int>, Cursor)
    decreases n,
{
    if n <= 1 {
        (seq![gain], c)
    } else {
        let (found, c) = read_scalefactors(codes, gain, c, (n - 1) as nat);
        let (delta, c) = huffman::read_delta(codes, c);
        (found.push(found.last() + delta), c)
    }
}

/// The noise shaping filter, if there is one.
pub open spec fn read_tns(c: Cursor) -> (Option<ReadFilter>, Cursor) {
    let (present, c) = c.flag();
    if !present {
        (None, c)
    } else {
        let (resolution, c) = c.read(1);
        let (length, c) = c.read(6);
        let (order, c) = c.read(4);
        let (downward, c) = if order == 0 {
            (false, c)
        } else {
            c.flag()
        };
        let (_, c) = if order == 0 {
            (false, c)
        } else {
            c.flag()
        };
        let (coefficients, c) = inverse::read_coefficients(c, resolution + 3, order);
        (
            Some(
                ReadFilter {
                    resolution: resolution as int,
                    length: length as int,
                    downward,
                    coefficients,
                },
            ),
            c,
        )
    }
}

/// A channel's header as it is read.
#[verifier::ext_equal]
pub struct ReadHeader {
    pub scalefactors: Seq<int>,
    pub noise_level: int,
    pub noise_offset: int,
    pub tns: Option<ReadFilter>,
}

/// A channel's header with `n` bands.
pub open spec fn read_header(codes: Codes, c: Cursor, n: nat) -> (ReadHeader, Cursor) {
    let (gain, c) = c.read(8);
    let (noise_level, c) = c.read(3);
    let (noise_offset, c) = c.read(5);
    let (scalefactors, c) = read_scalefactors(codes, gain as int, c, n);
    let (tns, c) = read_tns(c);
    (
        ReadHeader {
            scalefactors,
            noise_level: noise_level as int,
            noise_offset: noise_offset as int,
            tns,
        },
        c,
    )
}

/// The mid/side mask of `n` bands.
pub open spec fn read_mask(c: Cursor, n: nat) -> (Seq<bool>, Cursor)
    decreases n,
{
    if n == 0 {
        (Seq::empty(), c)
    } else {
        let (found, c) = read_mask(c, (n - 1) as nat);
        let (used, c) = c.flag();
        (found.push(used), c)
    }
}

/// The noise shaping filter of a channel.
#[derive(Debug, Clone)]
pub struct ReceivedFilter {
    /// Reflection coefficients have three bits and one more where this is one.
    pub resolution: u8,
    /// Bands from the start of the filter to the end of the band table.
    pub length: u8,
    pub downward: bool,
    pub coefficients: Vec<i8>,
}

/// Numbers as mathematical integers.
pub open spec fn plain8(s: Seq<i8>) -> Seq<int> {
    Seq::new(s.len(), |i: int| s[i] as int)
}

pub open spec fn plain32(s: Seq<i32>) -> Seq<int> {
    Seq::new(s.len(), |i: int| s[i] as int)
}

impl View for ReceivedFilter {
    type V = ReadFilter;

    open spec fn view(&self) -> ReadFilter {
        ReadFilter {
            resolution: self.resolution as int,
            length: self.length as int,
            downward: self.downward,
            coefficients: plain8(self.coefficients@),
        }
    }
}

/// A channel's header.
#[derive(Debug, Clone)]
pub struct ChannelHeader {
    pub scalefactors: Vec<i32>,
    pub noise_level: u8,
    pub noise_offset: u8,
    pub tns: Option<ReceivedFilter>,
}

pub open spec fn tns_view(tns: Option<ReceivedFilter>) -> Option<ReadFilter> {
    match tns {
        Some(f) => Some(f@),
        None => None,
    }
}

impl View for ChannelHeader {
    type V = ReadHeader;

    open spec fn view(&self) -> ReadHeader {
        ReadHeader {
            scalefactors: plain32(self.scalefactors@),
            noise_level: self.noise_level as int,
            noise_offset: self.noise_offset as int,
            tns: tns_view(self.tns),
        }
    }
}

proof fn lemma_delta_faulted(codes: Codes, c: Cursor)
    ensures
        c.fault is Some ==> huffman::read_delta(codes, c).1 == c,
{
    if c.fault is Some {
        huffman::lemma_code_faulted(codes.scalefactor, huffman::SCALEFACTOR_BOOK, c);
    }
}

proof fn lemma_scalefactors_faulted(codes: Codes, gain: int, c: Cursor, i: nat, n: nat)
    requires
        1 <= i <= n,
        read_scalefactors(codes, gain, c, i).1.fault is Some,
    ensures
        read_scalefactors(codes, gain, c, n).1 == read_scalefactors(codes, gain, c, i).1,
    decreases n,
{
    if i < n {
        lemma_scalefactors_faulted(codes, gain, c, i, (n - 1) as nat);
        lemma_delta_faulted(codes, read_scalefactors(codes, gain, c, (n - 1) as nat).1);
    }
}

proof fn lemma_coefficients_faulted(c: Cursor, width: nat, n: nat)
    ensures
        c.fault is Some ==> inverse::read_coefficients(c, width, n).1 == c,
    decreases n,
{
    broadcast use crate::bitstream::group_faulted;

    if n > 0 {
        lemma_coefficients_faulted(c, width, (n - 1) as nat);
    }
}

proof fn lemma_tns_faulted(c: Cursor)
    ensures
        c.fault is Some ==> read_tns(c).1 == c,
{
    broadcast use crate::bitstream::group_faulted;

}

proof fn lemma_mask_faulted(c: Cursor, i: nat, n: nat)
    requires
        i <= n,
        read_mask(c, i).1.fault is Some,
    ensures
        read_mask(c, n).1 == read_mask(c, i).1,
    decreases n,
{
    broadcast use crate::bitstream::group_faulted;

    if i < n {
        lemma_mask_faulted(c, i, (n - 1) as nat);
    }
}

fn read_deltas(reader: &mut BitReader, tables: &EncodeTables, gain: u8, num_sfb: usize) -> (r: Result<
    Vec<i32>,
>)
    requires
        1 <= num_sfb <= MAX_BANDS,
    ensures
        ({
            let (v, c) = read_scalefactors(
                tables@,
                gain as int,
                old(reader).cursor(),
                num_sfb as nat,
            );
            &&& final(reader)@ == c.bits
            &&& final(reader).consumed() == old(reader).position_before(c.bits)
            &&& match r {
                Ok(x) => c.fault is None && plain32(x@) == v,
                Err(e) => c.fault == Some(e@),
            }
        }),
{
    let ghost c0 = reader.cursor();
    let mut scalefactors: Vec<i32> = Vec::new();
    scalefactors.push(gain as i32);
    let mut running: i32 = gain as i32;
    let mut b: usize = 1;
    assert(plain32(scalefactors@) =~= seq![gain as int]);
    while b < num_sfb
        invariant
            1 <= b <= num_sfb <= MAX_BANDS,
            c0 == old(reader).cursor(),
            scalefactors@.len() == b,
            running == scalefactors@[b - 1],
            -60 * b <= running <= 255 + 60 * b,
            read_scalefactors(tables@, gain as int, c0, b as nat) == (
                plain32(scalefactors@),
                reader.cursor(),
            ),
            reader.consumed() == old(reader).position_before(reader@),
        decreases num_sfb - b,
    {
        proof {
            if huffman::read_delta(tables@, reader.cursor()).1.fault is Some {
                lemma_scalefactors_faulted(
                    tables@,
                    gain as int,
                    c0,
                    (b + 1) as nat,
                    num_sfb as nat,
                );
            }
        }
        let ghost before = scalefactors@;
        let delta: i32 = decode_scalefactor_delta(reader, tables)?;
        running = running + delta;
        scalefactors.push(running);
        b += 1;
        assert(plain32(scalefactors@) =~= plain32(before).push(plain32(before).last() + delta));
    }
    Ok(scalefactors)
}

/// Read the gain followed by one Huffman-coded delta per remaining band: the
/// scalefactor of each band.
pub fn read_scale_factor_data(
    reader: &mut BitReader,
    tables: &EncodeTables,
    num_sfb: usize,
) -> (r: Result<Vec<i32>>)
    requires
        1 <= num_sfb <= MAX_BANDS,
    ensures
        ({
            let (gain, c) = old(reader).cursor().read(8);
            let (v, c) = read_scalefactors(tables@, gain as int, c, num_sfb as nat);
            &&& final(reader)@ == c.bits
            &&& final(reader).consumed() == old(reader).position_before(c.bits)
            &&& match r {
                Ok(x) => c.fault is None && plain32(x@) == v,
                Err(e) => c.fault == Some(e@),
            }
        }),
{
    proof {
        let (gain, c) = reader.cursor().read(8);
        if c.fault is Some {
            lemma_scalefactors_faulted(tables@, gain as int, c, 1, num_sfb as nat);
        }
    }
    let gain: u8 = reader.read_u8(8)?;
    read_deltas(reader, tables, gain, num_sfb)
}

/// A field of `width` bits as a two's complement number.
fn sign_extend(v: u8, width: usize) -> (r: i8)
    requires
        3 <= width <= 4,
        v < pow2(width as nat),
    ensures
        r == inverse::signed(v as int, width as nat),
{
    proof {
        lemma2_to64();
    }
    if width == 3 {
        if v < 4 {
            v as i8
        } else {
            v as i8 - 8
        }
    } else if v < 8 {
        v as i8
    } else {
        v as i8 - 16
    }
}

fn read_coefficients(reader: &mut BitReader, width: usize, order: usize) -> (r: Result<Vec<i8>>)
    requires
        3 <= width <= 4,
    ensures
        ({
            let (v, c) = inverse::read_coefficients(
                old(reader).cursor(),
                width as nat,
                order as nat,
            );
            &&& final(reader)@ == c.bits
            &&& final(reader).consumed() == old(reader).position_before(c.bits)
            &&& match r {
                Ok(x) => c.fault is None && plain8(x@) == v,
                Err(e) => c.fault == Some(e@),
            }
        }),
{
    let ghost c0 = reader.cursor();
    let ghost w = width as nat;
    let ghost all = inverse::read_coefficients(c0, w, order as nat);
    let mut out: Vec<i8> = Vec::new();
    let mut i: usize = 0;
    assert(plain8(out@) + all.0 =~= all.0);
    while i < order
        invariant
            i <= order,
            3 <= width <= 4,
            w == width,
            c0 == old(reader).cursor(),
            out@.len() == i,
            all == inverse::read_coefficients(c0, w, order as nat),
            ({
                let (more, c) = inverse::read_coefficients(reader.cursor(), w, (order - i) as nat);
                &&& c == all.1
                &&& plain8(out@) + more == all.0
            }),
            reader.consumed() == old(reader).position_before(reader@),
        decreases order - i,
    {
        let ghost before = out@;
        let ghost (v, c) = reader.cursor().read(w);
        proof {
            lemma_coefficients_faulted(c, w, (order - i - 1) as nat);
        }
        let v: u8 = reader.read_u8(width)?;
        let x: i8 = sign_extend(v, width);
        out.push(x);
        i += 1;
        proof {
            let more = inverse::read_coefficients(reader.cursor(), w, (order - i) as nat).0;
            assert(plain8(out@) + more =~= plain8(before) + (seq![x as int] + more));
        }
    }
    assert(plain8(out@) + Seq::<int>::empty() =~= plain8(out@));
    Ok(out)
}

fn read_tns_data(reader: &mut BitReader) -> (r: Result<Option<ReceivedFilter>>)
    ensures
        ({
            let (v, c) = read_tns(old(reader).cursor());
            &&& final(reader)@ == c.bits
            &&& final(reader).consumed() == old(reader).position_before(c.bits)
            &&& match r {
                Ok(x) => c.fault is None && tns_view(x) == v,
                Err(e) => c.fault == Some(e@),
            }
        }),
{
    broadcast use crate::bitstream::group_faulted;

    let present: bool = reader.read_bit()?;
    if !present {
        return Ok(None);
    }
    let resolution: u8 = reader.read_u8(1)?;
    let length: u8 = reader.read_u8(6)?;
    let order: u8 = reader.read_u8(4)?;
    proof {
        lemma2_to64();
        let (f1, c) = reader.cursor().flag();
        lemma_coefficients_faulted(c, (resolution + 3) as nat, order as nat);
        lemma_coefficients_faulted(c.flag().1, (resolution + 3) as nat, order as nat);
    }
    let mut downward: bool = false;
    if order > 0 {
        downward = reader.read_bit()?;
        let _compress: bool = reader.read_bit()?;
    }
    let coefficients: Vec<i8> = read_coefficients(reader, resolution as usize + 3, order as usize)?;
    Ok(Some(ReceivedFilter { resolution, length, downward, coefficients }))
}

/// Read one channel's header.
pub fn read_channel_header(
    reader: &mut BitReader,
    tables: &EncodeTables,
    num_sfb: usize,
) -> (r: Result<ChannelHeader>)
    requires
        1 <= num_sfb <= MAX_BANDS,
    ensures
        ({
            let (v, c) = read_header(tables@, old(reader).cursor(), num_sfb as nat);
            &&& final(reader)@ == c.bits
            &&& final(reader).consumed() == old(reader).position_before(c.bits)
            &&& match r {
                Ok(x) => c.fault is None && x@ == v,
                Err(e) => c.fault == Some(e@),
            }
        }),
{
    broadcast use crate::bitstream::group_faulted;

    proof {
        let (gain, c1) = reader.cursor().read(8);
        let (_, c2) = c1.read(3);
        let (_, c3) = c2.read(5);
        let c4 = read_scalefactors(tables@, gain as int, c3, num_sfb as nat).1;
        lemma_tns_faulted(c4);
        if c3.fault is Some {
            lemma_scalefactors_faulted(tables@, gain as int, c3, 1, num_sfb as nat);
        }
    }
    let gain: u8 = reader.read_u8(8)?;
    let noise_level: u8 = reader.read_u8(3)?;
    let noise_offset: u8 = reader.read_u8(5)?;
    let scalefactors: Vec<i32> = read_deltas(reader, tables, gain, num_sfb)?;
    let tns: Option<ReceivedFilter> = read_tns_data(reader)?;
    Ok(ChannelHeader { scalefactors, noise_level, noise_offset, tns })
}

/// A channel's header and its lines.
#[derive(Debug, Clone)]
pub struct FdBlock {
    pub header: ChannelHeader,
    pub quant: Vec<i32>,
}

/// What stands in front of `rest` in a stream, and the contexts behind it.
#[verifier::ext_equal]
pub struct ReadBlock {
    pub header: ReadHeader,
    pub lines: Seq<i32>,
    pub contexts: History,
    pub rest: Seq<bool>,
}

/// One channel's block of `n` bands.
pub open spec fn read_block(codes: Codes, m: Model, h: History, s: Seq<bool>, n: nat) -> (
    std::result::Result<ReadBlock, ErrorView>
) {
    let (header, c) = read_header(codes, Cursor::at(s), n);
    let start = h.advanced(FRAME_PAIRS as int);
    match c.fault {
        Some(e) => Err(e),
        None => if arith::decodable(m, start, c.bits, FRAME_PAIRS as nat) {
            let (lines, end) = arith::decoded(m, start, c.bits, FRAME_PAIRS as nat);
            Ok(
                ReadBlock {
                    header,
                    lines: arith::filled(
                        lines,
                        FRAME_PAIRS as int,
                        Seq::new(FRAME_LEN as nat, |k: int| 0i32),
                    ),
                    contexts: arith::decoded_history(
                        m,
                        start,
                        c.bits,
                        FRAME_PAIRS as nat,
                        FRAME_PAIRS as int,
                    ),
                    rest: arith::after(c.bits, end),
                },
            )
        } else {
            Err(arith::corrupt_block())
        },
    }
}

/// Read one channel's block. Where it cannot be read the contexts stay as they
/// are.
pub fn decode_block(
    reader: &mut BitReader,
    tables: &EncodeTables,
    arith_tables: &ArithTables,
    contexts: &mut Contexts,
    num_sfb: usize,
) -> (r: Result<FdBlock>)
    requires
        1 <= num_sfb <= MAX_BANDS,
    ensures
        match read_block(
            tables@,
            arith_tables@,
            old(contexts)@,
            old(reader)@,
            num_sfb as nat,
        ) {
            Ok(b) => {
                &&& r matches Ok(x)
                &&& x.header@ == b.header
                &&& x.quant@ == b.lines
                &&& final(contexts)@ == b.contexts
                &&& final(reader)@ == b.rest
            },
            Err(e) => {
                &&& r matches Err(x)
                &&& x@ == e
                &&& final(contexts)@ == old(contexts)@
                &&& final(reader)@ == read_header(
                    tables@,
                    old(reader).cursor(),
                    num_sfb as nat,
                ).1.bits
            },
        },
        final(reader).consumed() == old(reader).position_before(final(reader)@),
{
    let header: ChannelHeader = read_channel_header(reader, tables, num_sfb)?;
    let mut quant: Vec<i32> = vec![0; FRAME_LEN];
    assert(quant@ =~= Seq::new(FRAME_LEN as nat, |k: int| 0i32));
    try_decode_pairs(
        reader,
        contexts,
        arith_tables,
        FRAME_PAIRS,
        FRAME_PAIRS,
        quant.as_mut_slice(),
    )?;
    Ok(FdBlock { header, quant })
}

/// Both channels of a stereo frame.
#[derive(Debug, Clone)]
pub struct FdPair {
    /// Which bands are coded as mid and side.
    pub ms_mask: Vec<bool>,
    pub left: FdBlock,
    pub right: FdBlock,
}

fn read_ms_mask(reader: &mut BitReader, num_sfb: usize) -> (r: Result<Vec<bool>>)
    ensures
        ({
            let (v, c) = read_mask(old(reader).cursor(), num_sfb as nat);
            &&& final(reader)@ == c.bits
            &&& final(reader).consumed() == old(reader).position_before(c.bits)
            &&& match r {
                Ok(x) => c.fault is None && x@ == v,
                Err(e) => c.fault == Some(e@),
            }
        }),
{
    let ghost c0 = reader.cursor();
    let mut mask: Vec<bool> = Vec::new();
    let mut b: usize = 0;
    while b < num_sfb
        invariant
            b <= num_sfb,
            c0 == old(reader).cursor(),
            read_mask(c0, b as nat) == (mask@, reader.cursor()),
            reader.consumed() == old(reader).position_before(reader@),
        decreases num_sfb - b,
    {
        proof {
            if reader.cursor().flag().1.fault is Some {
                lemma_mask_faulted(c0, (b + 1) as nat, num_sfb as nat);
            }
        }
        let used: bool = reader.read_bit()?;
        mask.push(used);
        b += 1;
    }
    Ok(mask)
}

/// Read one stereo frame: the mid/side mask and both channels' blocks, each
/// with contexts of its own. The contexts of a channel move on if its block
/// could be read.
pub fn decode_stereo_block(
    reader: &mut BitReader,
    tables: &EncodeTables,
    arith_tables: &ArithTables,
    left_contexts: &mut Contexts,
    right_contexts: &mut Contexts,
    num_sfb: usize,
) -> (r: Result<FdPair>)
    requires
        1 <= num_sfb <= MAX_BANDS,
    ensures
        ({
            let codes = tables@;
            let m = arith_tables@;
            let n = num_sfb as nat;
            let (mask, c) = read_mask(old(reader).cursor(), n);
            match c.fault {
                Some(e) => {
                    &&& r matches Err(x)
                    &&& x@ == e
                    &&& final(left_contexts)@ == old(left_contexts)@
                    &&& final(right_contexts)@ == old(right_contexts)@
                    &&& final(reader)@ == c.bits
                },
                None => match read_block(codes, m, old(left_contexts)@, c.bits, n) {
                    Err(e) => {
                        &&& r matches Err(x)
                        &&& x@ == e
                        &&& final(left_contexts)@ == old(left_contexts)@
                        &&& final(right_contexts)@ == old(right_contexts)@
                        &&& final(reader)@ == read_header(codes, c, n).1.bits
                    },
                    Ok(left) => match read_block(codes, m, old(right_contexts)@, left.rest, n) {
                        Err(e) => {
                            &&& r matches Err(x)
                            &&& x@ == e
                            &&& final(left_contexts)@ == left.contexts
                            &&& final(right_contexts)@ == old(right_contexts)@
                            &&& final(reader)@ == read_header(
                                codes,
                                Cursor::at(left.rest),
                                n,
                            ).1.bits
                        },
                        Ok(right) => {
                            &&& r matches Ok(x)
                            &&& x.ms_mask@ == mask
                            &&& x.left.header@ == left.header
                            &&& x.left.quant@ == left.lines
                            &&& x.right.header@ == right.header
                            &&& x.right.quant@ == right.lines
                            &&& final(left_contexts)@ == left.contexts
                            &&& final(right_contexts)@ == right.contexts
                            &&& final(reader)@ == right.rest
                        },
                    },
                },
            }
        }),
        final(reader).consumed() == old(reader).position_before(final(reader)@),
{
    let ms_mask: Vec<bool> = read_ms_mask(reader, num_sfb)?;
    let left: FdBlock = decode_block(reader, tables, arith_tables, left_contexts, num_sfb)?;
    let right: FdBlock = decode_block(reader, tables, arith_tables, right_contexts, num_sfb)?;
    Ok(FdPair { ms_mask, left, right })
}

/// Whether everything in a channel fits its field, and its scalefactor deltas
/// have codewords.
pub open spec fn fits(channel: FdChannel, codes: Codes) -> bool {
    let sfs = channel.scalefactors@;
    &&& channel.wf()
    &&& 0 <= sfs[0] <= 255
    &&& channel.noise_level < 8
    &&& channel.noise_offset < 32
    &&& forall|b: int| 1 <= b < sfs.len() ==> #[trigger] has_step(codes, sfs, b)
    &&& channel.tns matches Some(f) ==> {
        &&& 1 <= f.order <= 15
        &&& inverse::coefficients_fit(f.coef@, 0, f.order as int, 4)
    }
}

/// Whether the step from the band before to band `b` has a codeword.
pub open spec fn has_step(codes: Codes, sfs: Seq<i32>, b: int) -> bool {
    codes.delta_word(sfs[b] - sfs[b - 1]) is Some
}

/// A channel's header as it reads.
pub open spec fn as_read(channel: FdChannel, setup: TnsSetup) -> ReadHeader {
    ReadHeader {
        scalefactors: plain32(channel.scalefactors@),
        noise_level: channel.noise_level as int,
        noise_offset: channel.noise_offset as int,
        tns: match channel.tns {
            None => None,
            Some(f) => Some(
                ReadFilter {
                    resolution: 1,
                    length: setup.length(channel.scalefactors@.len() as int),
                    downward: false,
                    coefficients: Seq::new(f.order as nat, |k: int| f.coef@[k] as int),
                },
            ),
        },
    }
}

proof fn lemma_scalefactors(codes: Codes, sfs: Seq<i32>, k: nat, rest: Seq<bool>)
    requires
        huffman::is_prefix_code(codes.scalefactor),
        1 <= k <= sfs.len(),
        forall|b: int| 1 <= b < sfs.len() ==> #[trigger] has_step(codes, sfs, b),
    ensures
        read_scalefactors(
            codes,
            sfs[0] as int,
            Cursor::at(writing::sf_deltas(codes, sfs, k as int) + rest),
            k,
        ) == (plain32(sfs.take(k as int)), Cursor::at(rest)),
    decreases k,
{
    if k == 1 {
        assert(writing::sf_deltas(codes, sfs, 1) + rest =~= rest);
        assert(plain32(sfs.take(1)) =~= seq![sfs[0] as int]);
    } else {
        assert(has_step(codes, sfs, k - 1));
        let delta = sfs[k - 1] - sfs[k - 2];
        let word = (codes.delta_word(delta)->0).word();
        let head = writing::sf_deltas(codes, sfs, k - 1);
        assert(writing::sf_deltas(codes, sfs, k as int) + rest =~= head + (word + rest));
        lemma_scalefactors(codes, sfs, (k - 1) as nat, word + rest);
        huffman::law_delta_roundtrip(codes, delta, rest);
        assert(plain32(sfs.take(k as int)) =~= plain32(sfs.take(k - 1)).push(sfs[k - 1] as int));
    }
}

proof fn lemma_tns(filter: Option<TnsFilter>, length: int, rest: Seq<bool>)
    requires
        0 <= length < 64,
        filter matches Some(f) ==> {
            &&& 1 <= f.order <= 15
            &&& inverse::coefficients_fit(f.coef@, 0, f.order as int, 4)
        },
    ensures
        read_tns(Cursor::at(writing::tns_data(filter, length, rest))) == (
            match filter {
                None => None,
                Some(f) => Some(
                    ReadFilter {
                        resolution: 1,
                        length,
                        downward: false,
                        coefficients: Seq::new(f.order as nat, |k: int| f.coef@[k] as int),
                    },
                ),
            },
            Cursor::at(rest),
        ),
{
    match filter {
        None => {
            bitstream::lemma_read_flag(false, rest);
        },
        Some(f) => {
            lemma2_to64();
            let r6 = ics::coefficients(f.coef@, 0, f.order as int, 4, rest);
            let r5 = bits::flag(false, r6);
            let r4 = bits::flag(false, r5);
            let r3 = bits::field(f.order as nat, 4, r4);
            let r2 = bits::field(length as nat, 6, r3);
            let r1 = bits::flag(true, r2);
            bitstream::lemma_read_flag(true, r1);
            lemma_flag_as_field(r2);
            bitstream::lemma_read_field(length as nat, 6, r3);
            bitstream::lemma_read_field(f.order as nat, 4, r4);
            bitstream::lemma_read_flag(false, r5);
            bitstream::lemma_read_flag(false, r6);
            inverse::lemma_coefficients(f.coef@, 0, f.order as int, 4, rest);
            assert(Seq::new(f.order as nat, |k: int| f.coef@[0 + k] as int) =~= Seq::new(
                f.order as nat,
                |k: int| f.coef@[k] as int,
            ));
        },
    }
}

/// A set flag reads as a one in a field of one bit.
proof fn lemma_flag_as_field(rest: Seq<bool>)
    ensures
        Cursor::at(bits::flag(true, rest)).read(1) == (1nat, Cursor::at(rest)),
{
    reveal(bits::flag);
    reveal(bits::field);
    lemma2_to64();
    bitstream::lemma_read_field(1, 1, rest);
    reveal_with_fuel(bits::uint, 2);
    assert(bits::uint(1, 1) =~= bits::bit(true));
}

/// A channel's header comes back from the bits it was written to, whatever
/// follows it.
pub proof fn law_header_roundtrip(codes: Codes, channel: FdChannel, setup: TnsSetup, rest: Seq<bool>)
    requires
        huffman::is_prefix_code(codes.scalefactor),
        fits(channel, codes),
    ensures
        read_header(
            codes,
            Cursor::at(channel.header(codes, setup, rest)),
            channel.scalefactors@.len(),
        ) == (as_read(channel, setup), Cursor::at(rest)),
{
    lemma2_to64();
    let sfs = channel.scalefactors@;
    let n = sfs.len();
    let length = setup.length(n as int);
    let t = writing::tns_data(channel.tns, length, rest);
    let r3 = writing::sf_deltas(codes, sfs, n as int) + t;
    let r2 = bits::field(channel.noise_offset as nat, 5, r3);
    let r1 = bits::field(channel.noise_level as nat, 3, r2);
    bitstream::lemma_read_field(writing::gain_field(sfs[0]), 8, r1);
    bitstream::lemma_read_field(channel.noise_level as nat, 3, r2);
    bitstream::lemma_read_field(channel.noise_offset as nat, 5, r3);
    lemma_scalefactors(codes, sfs, n, t);
    assert(sfs.take(n as int) =~= sfs);
    lemma_tns(channel.tns, length, rest);
}

proof fn lemma_header_tail(
    codes: Codes,
    channel: FdChannel,
    setup: TnsSetup,
    rest: Seq<bool>,
    tail: Seq<bool>,
)
    ensures
        channel.header(codes, setup, rest) + tail == channel.header(codes, setup, rest + tail),
{
    broadcast use crate::bits::group_tail;

    let sfs = channel.scalefactors@;
    let n = sfs.len() as int;
    let d = writing::sf_deltas(codes, sfs, n);
    let t = writing::tns_data(channel.tns, setup.length(n), rest);
    if let Some(f) = channel.tns {
        inverse::lemma_coefficients_tail(f.coef@, 0, f.order as int, 4, rest, tail);
    }
    assert((d + t) + tail =~= d + (t + tail));
}

/// What the decoder reads from a channel's block is what the encoder put into
/// it: the header, every line, and nothing of what follows.
///
/// `h` are the encoder's contexts and `dh` the decoder's, which move on to the
/// block before it is read. Afterwards the same relation holds between the
/// two, so that a frame may follow a frame.
pub proof fn law_block_roundtrip(
    codes: Codes,
    m: Model,
    h: History,
    dh: History,
    channel: FdChannel,
    setup: TnsSetup,
    rest: Seq<bool>,
)
    requires
        huffman::is_prefix_code(codes.scalefactor),
        m.is_valid(),
        h.is_valid(),
        dh.advanced(FRAME_PAIRS as int) == h,
        fits(channel, codes),
    ensures
        ({
            let s = channel.block(codes, setup, m, h) + rest;
            &&& read_block(codes, m, dh, s, channel.scalefactors@.len()) matches Ok(b)
            &&& b.header == as_read(channel, setup)
            &&& b.lines == channel.quant@
            &&& b.rest == rest
            &&& b.contexts.advanced(FRAME_PAIRS as int) == channel.contexts_after(m, h)
            &&& channel.contexts_after(m, h).is_valid()
        }),
{
    let q = channel.quant@;
    let n = FRAME_PAIRS as nat;
    let spectrum = encoding::block_bits(m, h, q, n);
    lemma_header_tail(codes, channel, setup, spectrum, rest);
    law_header_roundtrip(codes, channel, setup, spectrum + rest);
    pairs::law_pairs_roundtrip(m, h, dh, q, n, FRAME_PAIRS as int, rest);
    let lines = Seq::new(2 * n, |i: int| q[i] as int);
    assert(arith::filled(
        lines,
        FRAME_PAIRS as int,
        Seq::new(FRAME_LEN as nat, |k: int| 0i32),
    ) =~= q);
}

proof fn lemma_mask(mask: Seq<bool>, k: nat, rest: Seq<bool>)
    requires
        k <= mask.len(),
    ensures
        read_mask(Cursor::at(mask.take(k as int) + rest), k) == (
            mask.take(k as int),
            Cursor::at(rest),
        ),
    decreases k,
{
    if k == 0 {
        assert(mask.take(0) + rest =~= rest);
        assert(mask.take(0) =~= Seq::<bool>::empty());
    } else {
        let b = mask[k - 1];
        let more = bits::flag(b, rest);
        reveal(bits::flag);
        assert(mask.take(k as int) + rest =~= mask.take(k - 1) + more);
        lemma_mask(mask, (k - 1) as nat, more);
        bitstream::lemma_read_flag(b, rest);
        assert(mask.take(k as int) =~= mask.take(k - 1).push(b));
    }
}

/// What the decoder reads from a stereo frame is what the encoder put into it:
/// the mid/side mask and both channels' blocks.
pub proof fn law_stereo_roundtrip(
    codes: Codes,
    m: Model,
    hl: History,
    hr: History,
    dl: History,
    dr: History,
    mask: Seq<bool>,
    left: FdChannel,
    right: FdChannel,
    setup: TnsSetup,
    rest: Seq<bool>,
)
    requires
        huffman::is_prefix_code(codes.scalefactor),
        m.is_valid(),
        hl.is_valid(),
        hr.is_valid(),
        dl.advanced(FRAME_PAIRS as int) == hl,
        dr.advanced(FRAME_PAIRS as int) == hr,
        fits(left, codes),
        fits(right, codes),
        mask.len() == left.scalefactors@.len(),
        mask.len() == right.scalefactors@.len(),
    ensures
        ({
            let n = mask.len();
            let s = writing::pair_block(codes, setup, m, mask, left, right, hl, hr) + rest;
            let (found, c) = read_mask(Cursor::at(s), n);
            &&& found == mask
            &&& c.fault is None
            &&& read_block(codes, m, dl, c.bits, n) matches Ok(l)
            &&& l.header == as_read(left, setup)
            &&& l.lines == left.quant@
            &&& l.contexts.advanced(FRAME_PAIRS as int) == left.contexts_after(m, hl)
            &&& read_block(codes, m, dr, l.rest, n) matches Ok(r)
            &&& r.header == as_read(right, setup)
            &&& r.lines == right.quant@
            &&& r.contexts.advanced(FRAME_PAIRS as int) == right.contexts_after(m, hr)
            &&& r.rest == rest
        }),
{
    let bl = left.block(codes, setup, m, hl);
    let br = right.block(codes, setup, m, hr);
    let s = writing::pair_block(codes, setup, m, mask, left, right, hl, hr) + rest;
    assert(mask.take(mask.len() as int) =~= mask);
    assert(s =~= mask + (bl + (br + rest)));
    lemma_mask(mask, mask.len(), bl + (br + rest));
    law_block_roundtrip(codes, m, hl, dl, left, setup, br + rest);
    law_block_roundtrip(codes, m, hr, dr, right, setup, rest);
}

/// The fixed tables that coded lines are scaled with.
pub struct ScaleTables {
    pow: Vec<i32>,
    exp: Vec<i64>,
    frac: Vec<i32>,
    noise: Vec<i32>,
}

/// The scale tables: linear magnitudes, powers of two, quarter steps between
/// them, and noise levels.
#[verifier::ext_equal]
pub struct Scale {
    pub pow: Seq<i32>,
    pub exp: Seq<i64>,
    pub frac: Seq<i32>,
    pub noise: Seq<i32>,
}

impl Scale {
    /// The tables are long enough, and their entries so small that a factor
    /// can be computed in 64 bits.
    pub open spec fn is_valid(self) -> bool {
        &&& arith::is_pow_table(self.pow)
        &&& self.exp.len() >= 32
        &&& forall|i: int| 0 <= i < self.exp.len() ==> 0 <= #[trigger] self.exp[i] <= 0x1_0000_0000
        &&& self.frac.len() >= 7
        &&& forall|i: int| 0 <= i < self.frac.len() ==> 0 <= #[trigger] self.frac[i]
        &&& self.noise.len() >= 8
        &&& forall|i: int| 0 <= i < self.noise.len() ==> 0 <= #[trigger] self.noise[i]
    }

    /// The linear factor of a scalefactor, in units of `2^-15`: four steps
    /// double it. Below unit gain it is zero.
    pub open spec fn factor(self, scalefactor: int) -> int {
        let steps = scalefactor - SF_OFFSET;
        let whole = if steps / 4 <= 31 {
            steps / 4
        } else {
            31
        };
        if steps < 0 {
            0
        } else {
            (self.frac[3 + steps % 4] * self.exp[whole]) / 0x8000
        }
    }
}

impl View for ScaleTables {
    type V = Scale;

    closed spec fn view(&self) -> Scale {
        Scale { pow: self.pow@, exp: self.exp@, frac: self.frac@, noise: self.noise@ }
    }
}

fn all_in_range(table: &Vec<i32>, end: i32) -> (r: bool)
    ensures
        r == forall|i: int| 0 <= i < table@.len() ==> 0 <= #[trigger] table@[i] <= end,
{
    let mut i: usize = 0;
    while i < table.len()
        invariant
            i <= table@.len(),
            forall|k: int| 0 <= k < i ==> 0 <= #[trigger] table@[k] <= end,
        decreases table@.len() - i,
    {
        if table[i] < 0 || table[i] > end {
            return false;
        }
        i += 1;
    }
    true
}

impl ScaleTables {
    #[verifier::type_invariant]
    closed spec fn inv(self) -> bool {
        self@.is_valid()
    }

    /// The tables, or none if they are not valid ones.
    pub fn new(pow: Vec<i32>, exp: Vec<i64>, frac: Vec<i32>, noise: Vec<i32>) -> (r: Option<Self>)
        ensures
            ({
                let scale = Scale { pow: pow@, exp: exp@, frac: frac@, noise: noise@ };
                match r {
                    Some(t) => scale.is_valid() && t@ == scale,
                    None => !scale.is_valid(),
                }
            }),
    {
        let ghost scale = Scale { pow: pow@, exp: exp@, frac: frac@, noise: noise@ };
        if pow.len() < 1025 || exp.len() < 32 || frac.len() < 7 || noise.len() < 8 {
            return None;
        }
        if !all_in_range(&pow, 0x7ff_ffff) {
            assert(!arith::is_pow_table(pow@));
            return None;
        }
        if !all_in_range(&frac, i32::MAX) || !all_in_range(&noise, i32::MAX) {
            return None;
        }
        let mut i: usize = 0;
        while i < exp.len()
            invariant
                i <= exp@.len(),
                scale.exp == exp@,
                forall|k: int| 0 <= k < i ==> 0 <= #[trigger] exp@[k] <= 0x1_0000_0000,
            decreases exp@.len() - i,
        {
            if exp[i] < 0 || exp[i] > 0x1_0000_0000 {
                assert(!scale.is_valid());
                return None;
            }
            i += 1;
        }
        Some(ScaleTables { pow, exp, frac, noise })
    }

    /// Turn a scalefactor into the fixed-point linear multiplier
    /// [`dequantize`] expects.
    pub fn fac_fix(&self, scalefactor: i32) -> (r: i64)
        requires
            scalefactor >= i32::MIN + SF_OFFSET,
        ensures
            r == self@.factor(scalefactor as int),
    {
        proof {
            use_type_invariant(self);
        }
        let steps: i32 = scalefactor - SF_OFFSET;
        if steps < 0 {
            return 0;
        }
        let whole: usize = if steps / 4 <= 31 {
            (steps / 4) as usize
        } else {
            31
        };
        let part: usize = (steps % 4) as usize;
        let f: i64 = self.frac[3 + part] as i64;
        let e: i64 = self.exp[whole];
        assert(0 <= self@.frac[3 + part]);
        assert(0 <= self@.exp[whole as int] <= 0x1_0000_0000);
        assert(0 <= f * e <= 0x7fff_ffff * 0x1_0000_0000) by (nonlinear_arith)
            requires
                0 <= f <= 0x7fff_ffff,
                0 <= e <= 0x1_0000_0000,
        ;
        f * e / 0x8000
    }
}

/// One past the last line of band `b`.
pub open spec fn band_end(offsets: Seq<usize>, quant: Seq<i32>, b: int) -> int {
    if offsets[b + 1] <= quant.len() {
        offsets[b + 1] as int
    } else {
        quant.len() as int
    }
}

/// The lines of band `b`.
pub open spec fn band_lines(offsets: Seq<usize>, quant: Seq<i32>, b: int) -> Seq<i32> {
    if offsets[b] < band_end(offsets, quant, b) {
        quant.subrange(offsets[b] as int, band_end(offsets, quant, b))
    } else {
        Seq::empty()
    }
}

/// Whether band `b` of a block is filled with noise.
pub open spec fn is_filled(offsets: Seq<usize>, block: FdBlock, b: int) -> bool {
    block.header.noise_level != 0 && writing::is_noise_band(offsets, block.quant@, b)
}

/// The scalefactor band `b` is scaled with. The noise offset moves that of a
/// band that is filled with noise.
pub open spec fn band_scalefactor(offsets: Seq<usize>, block: FdBlock, b: int) -> int {
    let sf = block.header.scalefactors@[b] as int;
    if is_filled(offsets, block, b) {
        sf + block.header.noise_offset - NEUTRAL_NOISE_OFFSET
    } else {
        sf
    }
}

/// The state of the noise generator in front of band `b`.
pub open spec fn band_seed(offsets: Seq<usize>, block: FdBlock, seed: int, b: int) -> int
    decreases b,
{
    if b <= 0 {
        seed
    } else {
        let lines = band_lines(offsets, block.quant@, b - 1);
        arith::seed_after(
            lines,
            is_filled(offsets, block, b - 1),
            band_seed(offsets, block, seed, b - 1),
            lines.len(),
        )
    }
}

/// Whether band `b` can be scaled in 64 bits.
pub open spec fn band_scalable(scale: Scale, offsets: Seq<usize>, block: FdBlock, b: int) -> bool {
    arith::scalable(
        scale.pow,
        band_lines(offsets, block.quant@, b),
        scale.noise[block.header.noise_level as int] as int,
        is_filled(offsets, block, b),
        scale.factor(band_scalefactor(offsets, block, b)),
    )
}

/// Whether the first `n` bands of a block can be scaled.
pub open spec fn block_scalable(scale: Scale, offsets: Seq<usize>, block: FdBlock, n: int) -> bool {
    forall|b: int| 0 <= b < n ==> #[trigger] band_scalable(scale, offsets, block, b)
}

/// Whether a scalefactor, raised by any noise offset and counted from unit
/// gain, fits in 32 bits.
pub open spec fn is_scalefactor(sf: i32) -> bool {
    i32::MIN + NEUTRAL_NOISE_OFFSET + SF_OFFSET <= sf <= i32::MAX - 31
}

/// Whether a block has the shape of `n` bands: a scalefactor for each, and a
/// noise level and offset that their fields can hold.
pub open spec fn has_shape(offsets: Seq<usize>, block: FdBlock, n: int) -> bool {
    &&& 0 <= n < offsets.len()
    &&& n <= block.header.scalefactors@.len()
    &&& forall|b: int| 0 <= b < n ==> is_scalefactor(#[trigger] block.header.scalefactors@[b])
    &&& block.header.noise_level < 8
    &&& block.header.noise_offset < 32
    &&& forall|i: int, j: int|
        0 <= i <= j <= n ==> (#[trigger] offsets[i]) <= (#[trigger] offsets[j])
}

proof fn lemma_offsets_ascend(offsets: Seq<usize>, n: int, i: int, j: int)
    requires
        n < offsets.len(),
        forall|a: int, b: int|
            0 <= a < n && b == a + 1 ==> (#[trigger] offsets[a]) <= (#[trigger] offsets[b]),
        0 <= i <= j <= n,
    ensures
        offsets[i] <= offsets[j],
    decreases j - i,
{
    if i < j {
        lemma_offsets_ascend(offsets, n, i, j - 1);
        assert(offsets[j - 1] <= offsets[j]);
    }
}

/// Whether a block has the shape of `num_sfb` bands, as [`channel_fits`] and
/// [`dequantize_channel`] need it.
pub fn block_has_shape(block: &FdBlock, sfb_offsets: &[usize], num_sfb: usize) -> (r: bool)
    ensures
        r == has_shape(sfb_offsets@, *block, num_sfb as int),
{
    let header: &ChannelHeader = &block.header;
    if num_sfb >= sfb_offsets.len() || num_sfb > header.scalefactors.len() || header.noise_level
        >= 8 || header.noise_offset >= 32 {
        return false;
    }
    let mut b: usize = 0;
    while b < num_sfb
        invariant
            b <= num_sfb,
            num_sfb < sfb_offsets@.len(),
            *header == block.header,
            num_sfb <= header.scalefactors@.len(),
            forall|k: int| 0 <= k < b ==> is_scalefactor(#[trigger] header.scalefactors@[k]),
            forall|i: int, j: int|
                0 <= i < b && j == i + 1 ==> (#[trigger] sfb_offsets@[i]) <= (
                #[trigger] sfb_offsets@[j]),
        decreases num_sfb - b,
    {
        let sf: i32 = header.scalefactors[b];
        if sf < i32::MIN + NEUTRAL_NOISE_OFFSET as i32 + SF_OFFSET || sf > i32::MAX - 31 {
            assert(!is_scalefactor(block.header.scalefactors@[b as int]));
            return false;
        }
        if sfb_offsets[b] > sfb_offsets[b + 1] {
            assert(!(sfb_offsets@[b as int] <= sfb_offsets@[b + 1]));
            return false;
        }
        b += 1;
    }
    proof {
        assert forall|i: int, j: int| 0 <= i <= j <= num_sfb implies (#[trigger] sfb_offsets@[i])
            <= (#[trigger] sfb_offsets@[j]) by {
            lemma_offsets_ascend(sfb_offsets@, num_sfb as int, i, j);
        }
    }
    true
}

/// Line `i` of band `b` as a linear coefficient.
pub open spec fn band_coefficient(
    scale: Scale,
    offsets: Seq<usize>,
    block: FdBlock,
    seed: int,
    b: int,
    i: int,
) -> i32 {
    arith::linear_coefficient(
        scale.pow,
        band_lines(offsets, block.quant@, b),
        scale.noise[block.header.noise_level as int] as int,
        is_filled(offsets, block, b),
        band_seed(offsets, block, seed, b),
        scale.factor(band_scalefactor(offsets, block, b)),
        i - offsets[b],
    ) as i32
}

/// Dequantize one channel's coded magnitudes band by band, each with its own
/// scalefactor. Lines outside the bands stay zero.
pub fn dequantize_channel(
    tables: &ScaleTables,
    block: &FdBlock,
    sfb_offsets: &[usize],
    num_sfb: usize,
    noise_seed: &mut u32,
) -> (r: Vec<i32>)
    requires
        has_shape(sfb_offsets@, *block, num_sfb as int),
        block_scalable(tables@, sfb_offsets@, *block, num_sfb as int),
    ensures
        r@.len() == block.quant@.len(),
        forall|b: int, i: int|
            0 <= b < num_sfb && sfb_offsets@[b] <= i < band_end(sfb_offsets@, block.quant@, b)
                ==> #[trigger] r@[i] == #[trigger] band_coefficient(
                tables@,
                sfb_offsets@,
                *block,
                *old(noise_seed) as int,
                b,
                i,
            ),
        forall|i: int|
            0 <= i < r@.len() && (i < sfb_offsets@[0] || i >= sfb_offsets@[num_sfb as int])
                ==> #[trigger] r@[i] == 0,
        *final(noise_seed) == band_seed(
            sfb_offsets@,
            *block,
            *old(noise_seed) as int,
            num_sfb as int,
        ),
{
    proof {
        use_type_invariant(tables);
    }
    let ghost offsets = sfb_offsets@;
    let ghost scale = tables@;
    let ghost q = block.quant@;
    let ghost seed0 = *noise_seed as int;
    let silent: Vec<bool> = noise_bands(sfb_offsets, num_sfb, block.quant.as_slice());
    let level: i32 = tables.noise[block.header.noise_level as usize];
    let mut coef: Vec<i32> = vec![0; block.quant.len()];
    let mut b: usize = 0;
    while b < num_sfb
        invariant
            b <= num_sfb,
            offsets == sfb_offsets@,
            scale == tables@,
            scale.is_valid(),
            q == block.quant@,
            seed0 == *old(noise_seed),
            level == scale.noise[block.header.noise_level as int],
            has_shape(offsets, *block, num_sfb as int),
            block_scalable(scale, offsets, *block, num_sfb as int),
            silent@.len() == num_sfb,
            forall|k: int|
                0 <= k < num_sfb ==> #[trigger] silent@[k] == writing::is_noise_band(offsets, q, k),
            coef@.len() == q.len(),
            *noise_seed == band_seed(offsets, *block, seed0, b as int),
            forall|k: int, i: int|
                0 <= k < b && offsets[k] <= i < band_end(offsets, q, k) ==> #[trigger] coef@[i]
                    == #[trigger] band_coefficient(scale, offsets, *block, seed0, k, i),
            forall|i: int|
                0 <= i < coef@.len() && (i < offsets[0] || i >= offsets[b as int])
                    ==> #[trigger] coef@[i] == 0,
        decreases num_sfb - b,
    {
        let lo: usize = sfb_offsets[b];
        let end: usize = sfb_offsets[b + 1];
        let hi: usize = if end <= block.quant.len() {
            end
        } else {
            block.quant.len()
        };
        assert(offsets[b as int] <= offsets[b + 1]);
        assert(offsets[0] <= offsets[b as int]);
        let ghost old_coef = coef@;
        if lo < hi {
            let ghost lines = band_lines(offsets, q, b as int);
            let filled: bool = block.header.noise_level != 0 && silent[b];
            assert(filled == is_filled(offsets, *block, b as int));
            let sf: i32 = block.header.scalefactors[b];
            assert(is_scalefactor(block.header.scalefactors@[b as int]));
            let sf: i32 = if filled {
                sf + block.header.noise_offset as i32 - NEUTRAL_NOISE_OFFSET as i32
            } else {
                sf
            };
            let fac: i64 = tables.fac_fix(sf);
            let band: &[i32] = vstd::slice::slice_subrange(block.quant.as_slice(), lo, hi);
            let width: usize = hi - lo;
            let mut out: Vec<i32> = vec![0; width];
            assert(band@ =~= lines);
            assert(band_scalable(scale, offsets, *block, b as int));
            dequantize(
                tables.pow.as_slice(),
                band,
                out.as_mut_slice(),
                level,
                filled,
                noise_seed,
                fac,
            );
            let mut i: usize = 0;
            while i < hi - lo
                invariant
                    i <= hi - lo,
                    lo < hi <= coef@.len(),
                    out@.len() == hi - lo,
                    coef@.len() == old_coef.len(),
                    forall|k: int|
                        0 <= k < coef@.len() ==> #[trigger] coef@[k] == if lo <= k < lo + i {
                            out@[k - lo]
                        } else {
                            old_coef[k]
                        },
                decreases hi - lo - i,
            {
                coef[lo + i] = out[i];
                i += 1;
            }
            assert forall|i: int| lo <= i < hi implies #[trigger] coef@[i] == band_coefficient(
                scale,
                offsets,
                *block,
                seed0,
                b as int,
                i,
            ) by {
                assert(coef@[i] == out@[i - lo]);
            }
        }
        proof {
            assert forall|k: int, i: int|
                0 <= k <= b && offsets[k] <= i < band_end(
                    offsets,
                    q,
                    k,
                ) implies #[trigger] coef@[i] == #[trigger] band_coefficient(
                scale,
                offsets,
                *block,
                seed0,
                k,
                i,
            ) by {
                if k < b {
                    assert(offsets[k + 1] <= offsets[b as int]);
                    assert(old_coef[i] == band_coefficient(scale, offsets, *block, seed0, k, i));
                }
            }
        }
        b += 1;
    }
    coef
}

/// Whether a band can be scaled in 64 bits.
fn band_fits(pow: &[i32], lines: &[i32], level: i32, filled: bool, fac: i64) -> (r: bool)
    requires
        arith::is_pow_table(pow@),
        0 <= level,
        0 <= fac,
    ensures
        r == arith::scalable(pow@, lines@, level as int, filled, fac as int),
{
    assert(0 <= fac * level <= i64::MAX * i32::MAX) by (nonlinear_arith)
        requires
            0 <= fac <= i64::MAX,
            0 <= level <= i32::MAX,
    ;
    let noise: i128 = fac as i128 * level as i128;
    if filled && noise > i64::MAX as i128 {
        return false;
    }
    let mut i: usize = 0;
    while i < lines.len()
        invariant
            i <= lines@.len(),
            arith::is_pow_table(pow@),
            0 <= fac,
            forall|k: int|
                0 <= k < i ==> (#[trigger] lines@[k]) > i32::MIN && i64::MIN <= fac
                    * arith::linear_value(pow@, lines@[k]) <= i64::MAX,
        decreases lines@.len() - i,
    {
        let x: i32 = lines[i];
        if x == i32::MIN {
            return false;
        }
        let value: i64 = linear(pow, x) as i64;
        assert(-(i64::MAX * 0x1_0000_0000) <= fac * value <= i64::MAX * 0x1_0000_0000)
            by (nonlinear_arith)
            requires
                0 <= fac <= i64::MAX,
                -0x1_0000_0000 <= value <= 0x1_0000_0000,
        ;
        let scaled: i128 = fac as i128 * value as i128;
        if scaled < i64::MIN as i128 || scaled > i64::MAX as i128 {
            return false;
        }
        i += 1;
    }
    true
}

proof fn lemma_factor_sign(scale: Scale, sf: int)
    requires
        scale.is_valid(),
    ensures
        0 <= scale.factor(sf),
{
    let steps = sf - SF_OFFSET;
    if steps >= 0 {
        let whole = if steps / 4 <= 31 {
            steps / 4
        } else {
            31
        };
        let f = scale.frac[3 + steps % 4] as int;
        let e = scale.exp[whole] as int;
        assert(0 <= f * e) by (nonlinear_arith)
            requires
                0 <= f,
                0 <= e,
        ;
    }
}

/// Whether [`dequantize_channel`] can scale a block: no line of it is so large
/// that its scaled value leaves 64 bits.
pub fn channel_fits(
    tables: &ScaleTables,
    block: &FdBlock,
    sfb_offsets: &[usize],
    num_sfb: usize,
) -> (r: bool)
    requires
        has_shape(sfb_offsets@, *block, num_sfb as int),
    ensures
        r == block_scalable(tables@, sfb_offsets@, *block, num_sfb as int),
{
    proof {
        use_type_invariant(tables);
    }
    let ghost offsets = sfb_offsets@;
    let ghost scale = tables@;
    let ghost q = block.quant@;
    let silent: Vec<bool> = noise_bands(sfb_offsets, num_sfb, block.quant.as_slice());
    let level: i32 = tables.noise[block.header.noise_level as usize];
    assert(0 <= scale.noise[block.header.noise_level as int]);
    let mut b: usize = 0;
    while b < num_sfb
        invariant
            b <= num_sfb,
            offsets == sfb_offsets@,
            scale == tables@,
            scale.is_valid(),
            q == block.quant@,
            0 <= level,
            level == scale.noise[block.header.noise_level as int],
            has_shape(offsets, *block, num_sfb as int),
            block_scalable(scale, offsets, *block, b as int),
            silent@.len() == num_sfb,
            forall|k: int|
                0 <= k < num_sfb ==> #[trigger] silent@[k] == writing::is_noise_band(offsets, q, k),
        decreases num_sfb - b,
    {
        let lo: usize = sfb_offsets[b];
        let end: usize = sfb_offsets[b + 1];
        let hi: usize = if end <= block.quant.len() {
            end
        } else {
            block.quant.len()
        };
        if lo < hi {
            let filled: bool = block.header.noise_level != 0 && silent[b];
            assert(filled == is_filled(offsets, *block, b as int));
            let sf: i32 = block.header.scalefactors[b];
            assert(is_scalefactor(block.header.scalefactors@[b as int]));
            let sf: i32 = if filled {
                sf + block.header.noise_offset as i32 - NEUTRAL_NOISE_OFFSET as i32
            } else {
                sf
            };
            let fac: i64 = tables.fac_fix(sf);
            proof {
                lemma_factor_sign(scale, sf as int);
            }
            let band: &[i32] = vstd::slice::slice_subrange(block.quant.as_slice(), lo, hi);
            assert(band@ =~= band_lines(offsets, q, b as int));
            if !band_fits(tables.pow.as_slice(), band, level, filled, fac) {
                assert(!band_scalable(scale, offsets, *block, b as int));
                return false;
            }
        }
        b += 1;
    }
    true
}

} // verus!
