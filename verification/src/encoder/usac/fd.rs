//! The bitstream side of the frequency domain (FD) encoder.
//!
//! A channel's block is its gain, the noise filling parameters, one
//! Huffman-coded scalefactor delta per remaining band, the noise shaping
//! filter, and the arithmetic-coded spectrum. A stereo frame starts with one
//! bit per band that says whether the band is coded as mid and side.

use crate::bits;
use crate::bitstream::BitWriter;
use crate::decoder::aac::ics::MAX_TNS_ORDER;
use crate::encoder::aac::huffman::{write_scalefactor_delta, Codes, EncodeTables};
use crate::encoder::aac::ics;
use crate::encoder::aac::ics::write_coefficients;
use crate::encoder::aac::quant::SF_OFFSET;
use crate::encoder::aac::rate;
use crate::encoder::aac::rate::{MAX_SCALEFACTOR, MAX_SCALEFACTOR_DELTA};
use crate::encoder::usac::arith;
use crate::encoder::usac::arith::encode_pairs;
use crate::encoder::usac::tns::{TnsFilter, TnsSetup};
use crate::tables::scalefactor;
use crate::tables::scalefactor::{compute_sfb_offsets, SFB_48_1024};
use crate::tables::usac_arith::{ArithTables, Contexts, History, Model, MAX_PAIRS};
use vstd::prelude::*;

verus! {

/// Samples per frame.
pub const FRAME_LEN: usize = 1024;

/// Default payload bit budget for one channel's frame.
pub const DEFAULT_BUDGET_BITS: usize = 12_000;

/// First line that noise filling may touch.
pub const NOISE_FILLING_START_OFFSET: usize = 160;

/// The noise offset that leaves a band's own scalefactor as it is.
pub const NEUTRAL_NOISE_OFFSET: u8 = 16;

/// The bands of the frequency domain path and the noise shaping setup built
/// from them.
#[derive(Debug, Clone)]
pub struct FdLayout {
    pub sfb_offsets: Vec<usize>,
    pub num_sfb: usize,
    pub tns: TnsSetup,
}

/// The band offsets of the frequency domain path.
pub open spec fn fd_offsets() -> Seq<usize> {
    Seq::new(50, |k: int| scalefactor::offset(SFB_48_1024@, k) as usize)
}

impl FdLayout {
    pub fn new() -> (r: Self)
        ensures
            r.num_sfb == 49,
            r.sfb_offsets@ == fd_offsets(),
            r.tns == TnsSetup::of(fd_offsets(), 49),
    {
        let widths: [u8; 49] = SFB_48_1024;
        let mut all: [usize; 52] = [0;52];
        proof {
            scalefactor::lemma_offset_grows(SFB_48_1024@, 0, 49);
        }
        let count: usize = compute_sfb_offsets(&widths, &mut all);
        let mut sfb_offsets: Vec<usize> = Vec::new();
        let mut k: usize = 0;
        while k < count
            invariant
                k <= count,
                count == 50,
                forall|j: int|
                    0 <= j < count ==> #[trigger] all@[j] == scalefactor::offset(SFB_48_1024@, j),
                sfb_offsets@ == fd_offsets().take(k as int),
            decreases count - k,
        {
            assert(all@[k as int] == scalefactor::offset(SFB_48_1024@, k as int));
            sfb_offsets.push(all[k]);
            k += 1;
            assert(sfb_offsets@ =~= fd_offsets().take(k as int));
        }
        assert(fd_offsets().take(50) =~= fd_offsets());
        proof {
            assert forall|k: int| 0 <= k <= 49 implies #[trigger] sfb_offsets@[k]
                <= 0x1_0000_0000 by {
                scalefactor::lemma_offset_grows(SFB_48_1024@, 0, k);
            }
        }
        let tns: TnsSetup = TnsSetup::new(sfb_offsets.as_slice(), count - 1);
        FdLayout { sfb_offsets, num_sfb: count - 1, tns }
    }
}

/// A scalefactor as the eight-bit gain field holds it.
pub open spec fn gain_field(sf: i32) -> nat {
    if sf < 0 {
        0
    } else if sf > 255 {
        255
    } else {
        sf as nat
    }
}

/// Whether the step from each scalefactor to the next fits in 32 bits.
pub open spec fn steps_fit(sfs: Seq<i32>) -> bool {
    forall|a: int, b: int|
        0 <= a < b < sfs.len() && b == a + 1 ==> i32::MIN <= #[trigger] sfs[b] - #[trigger] sfs[a]
            <= i32::MAX
}

/// The deltas of the first `n` scalefactors, each counted from the one before.
pub open spec fn sf_deltas(codes: Codes, sfs: Seq<i32>, n: int) -> Seq<bool>
    decreases n,
{
    if n <= 1 {
        Seq::empty()
    } else {
        let head = sf_deltas(codes, sfs, n - 1);
        match codes.delta_word(sfs[n - 1] - sfs[n - 2]) {
            Some(cw) => head + cw.word(),
            None => head,
        }
    }
}

/// The gain and the deltas, and nothing else: what a trial's cost is measured
/// with.
pub open spec fn scale_factor_data(codes: Codes, sfs: Seq<i32>) -> Seq<bool> {
    bits::field(gain_field(sfs[0]), 8, sf_deltas(codes, sfs, sfs.len() as int))
}

/// The noise shaping filter, before `rest`.
pub open spec fn tns_data(filter: Option<TnsFilter>, length: int, rest: Seq<bool>) -> Seq<bool> {
    match filter {
        None => bits::flag(false, rest),
        Some(f) => {
            let rest = if f.order > 0 {
                bits::flag(
                    false,
                    bits::flag(false, ics::coefficients(f.coef@, 0, f.order as int, 4, rest)),
                )
            } else {
                rest
            };
            bits::flag(
                true,
                bits::flag(
                    true,
                    bits::field(length as nat, 6, bits::field(f.order as nat, 4, rest)),
                ),
            )
        },
    }
}

/// One channel of a frame, as it is written.
#[derive(Debug, Clone)]
pub struct FdChannel {
    pub scalefactors: Vec<i32>,
    pub noise_level: u8,
    pub noise_offset: u8,
    pub tns: Option<TnsFilter>,
    pub quant: Vec<i32>,
}

/// The number of coefficient pairs of a frame.
pub const FRAME_PAIRS: usize = 512;

impl FdChannel {
    /// The channel can be written.
    pub open spec fn wf(self) -> bool {
        &&& self.scalefactors@.len() >= 1
        &&& steps_fit(self.scalefactors@)
        &&& self.tns matches Some(f) ==> f.order <= MAX_TNS_ORDER
        &&& self.quant@.len() == FRAME_LEN
        &&& arith::codable(self.quant@, FRAME_PAIRS as nat)
    }

    /// Whether the channel can be written.
    pub fn is_writable(&self) -> (r: bool)
        ensures
            r == self.wf(),
    {
        let ghost sfs = self.scalefactors@;
        let ghost q = self.quant@;
        if self.scalefactors.len() == 0 || self.quant.len() != FRAME_LEN {
            return false;
        }
        if let Some(f) = &self.tns {
            if f.order > MAX_TNS_ORDER {
                return false;
            }
        }
        let mut b: usize = 1;
        while b < self.scalefactors.len()
            invariant
                sfs == self.scalefactors@,
                1 <= b <= sfs.len(),
                forall|i: int, j: int|
                    0 <= i < j < b && j == i + 1 ==> i32::MIN <= #[trigger] sfs[j]
                        - #[trigger] sfs[i] <= i32::MAX,
            decreases sfs.len() - b,
        {
            let step: i64 = self.scalefactors[b] as i64 - self.scalefactors[b - 1] as i64;
            if step < i32::MIN as i64 || step > i32::MAX as i64 {
                assert(!steps_fit(sfs)) by {
                    assert(step == sfs[b as int] - sfs[b - 1]);
                }
                return false;
            }
            b += 1;
        }
        let mut i: usize = 0;
        while i < FRAME_PAIRS
            invariant
                q == self.quant@,
                q.len() == FRAME_LEN,
                i <= FRAME_PAIRS,
                forall|k: int|
                    0 <= k < i ==> arith::magnitude(#[trigger] q[2 * k]) + arith::magnitude(
                        q[2 * k + 1],
                    ) < i32::MAX,
            decreases FRAME_PAIRS - i,
        {
            let a: i64 = self.quant[2 * i] as i64;
            let b: i64 = self.quant[2 * i + 1] as i64;
            let size: i64 = (if a < 0 {
                -a
            } else {
                a
            }) + (if b < 0 {
                -b
            } else {
                b
            });
            if size >= i32::MAX as i64 {
                assert(arith::magnitude(q[2 * i]) + arith::magnitude(q[2 * i + 1]) == size);
                return false;
            }
            i += 1;
        }
        true
    }

    /// The header, before `rest`.
    pub open spec fn header(self, codes: Codes, setup: TnsSetup, rest: Seq<bool>) -> Seq<bool> {
        let sfs = self.scalefactors@;
        let n = sfs.len() as int;
        bits::field(
            gain_field(sfs[0]),
            8,
            bits::field(
                self.noise_level as nat,
                3,
                bits::field(
                    self.noise_offset as nat,
                    5,
                    sf_deltas(codes, sfs, n) + tns_data(self.tns, setup.length(n), rest),
                ),
            ),
        )
    }

    /// The channel's block: its header and its spectrum.
    pub open spec fn block(self, codes: Codes, setup: TnsSetup, m: Model, h: History) -> Seq<bool> {
        self.header(codes, setup, arith::block_bits(m, h, self.quant@, FRAME_PAIRS as nat))
    }

    /// The contexts behind the channel's block.
    pub open spec fn contexts_after(self, m: Model, h: History) -> History {
        arith::block_history(m, h, self.quant@, FRAME_PAIRS as nat, FRAME_PAIRS as int)
    }
}

fn clamped_gain(sf: i32) -> (r: u8)
    ensures
        r == gain_field(sf),
{
    if sf < 0 {
        0
    } else if sf > 255 {
        255
    } else {
        sf as u8
    }
}

fn write_deltas(writer: &mut BitWriter, tables: &EncodeTables, scalefactors: &Vec<i32>)
    requires
        scalefactors@.len() >= 1,
        steps_fit(scalefactors@),
    ensures
        final(writer)@ == old(writer)@ + sf_deltas(
            tables@,
            scalefactors@,
            scalefactors@.len() as int,
        ),
{
    let ghost sfs = scalefactors@;
    let ghost start = writer@;
    let mut b: usize = 1;
    assert(start + Seq::<bool>::empty() =~= start);
    while b < scalefactors.len()
        invariant
            1 <= b <= scalefactors@.len(),
            sfs == scalefactors@,
            steps_fit(sfs),
            writer@ == start + sf_deltas(tables@, sfs, b as int),
        decreases scalefactors@.len() - b,
    {
        assert(i32::MIN <= sfs[b as int] - sfs[b - 1] <= i32::MAX);
        let delta: i32 = scalefactors[b] - scalefactors[b - 1];
        let _ = write_scalefactor_delta(writer, tables, delta);
        b += 1;
        assert(writer@ =~= start + sf_deltas(tables@, sfs, b as int));
    }
}

/// Writes the gain followed by one Huffman-coded delta per remaining band.
pub fn write_scale_factor_data(
    writer: &mut BitWriter,
    tables: &EncodeTables,
    scalefactors: &Vec<i32>,
)
    requires
        scalefactors@.len() >= 1,
        steps_fit(scalefactors@),
    ensures
        final(writer)@ == old(writer)@ + scale_factor_data(tables@, scalefactors@),
{
    let ghost w0 = writer@;
    writer.write_u8(clamped_gain(scalefactors[0]), 8);
    write_deltas(writer, tables, scalefactors);
    proof {
        bits::lemma_append_field(
            w0,
            gain_field(scalefactors@[0]),
            8,
            sf_deltas(tables@, scalefactors@, scalefactors@.len() as int),
        );
    }
}

/// Writes the noise shaping filter, if there is one.
fn write_tns_data(writer: &mut BitWriter, filter: &Option<TnsFilter>, length: u8)
    requires
        filter matches Some(f) ==> f.order <= MAX_TNS_ORDER,
    ensures
        forall|rest: Seq<bool>|
            #[trigger] (final(writer)@ + rest) == old(writer)@ + tns_data(
                *filter,
                length as int,
                rest,
            ),
{
    let ghost w0 = writer@;
    match filter {
        None => {
            writer.write_bit(false);
            proof {
                assert forall|rest: Seq<bool>|
                    #[trigger] (writer@ + rest) == w0 + tns_data(None, length as int, rest) by {
                    bits::lemma_append_flag(w0, false, rest);
                }
            }
        },
        Some(f) => {
            writer.write_bit(true);
            let ghost w1 = writer@;
            writer.write_bit(true);  // coefficients of four bits
            let ghost w2 = writer@;
            writer.write_u8(length, 6);
            let ghost w3 = writer@;
            writer.write_bits(f.order as u64, 4);
            let ghost w4 = writer@;
            let ghost mut w5 = w4;
            let ghost mut w6 = w4;
            if f.order > 0 {
                writer.write_bit(false);  // direction
                proof {
                    w5 = writer@;
                }
                writer.write_bit(false);  // coef_compress
                proof {
                    w6 = writer@;
                }
                write_coefficients(writer, &f.coef, f.order, 4);
            }
            proof {
                assert forall|rest: Seq<bool>|
                    #[trigger] (writer@ + rest) == w0 + tns_data(
                        Some(*f),
                        length as int,
                        rest,
                    ) by {
                    let coefs = ics::coefficients(f.coef@, 0, f.order as int, 4, rest);
                    let r4 = if f.order > 0 {
                        bits::flag(false, bits::flag(false, coefs))
                    } else {
                        rest
                    };
                    assert(writer@ + rest == w4 + r4) by {
                        if f.order > 0 {
                            assert(writer@ + rest == w6 + coefs);
                            bits::lemma_append_flag(w5, false, coefs);
                            bits::lemma_append_flag(w4, false, bits::flag(false, coefs));
                        }
                    }
                    let r3 = bits::field(f.order as nat, 4, r4);
                    let r2 = bits::field(length as nat, 6, r3);
                    bits::lemma_append_field(w3, f.order as nat, 4, r4);
                    bits::lemma_append_field(w2, length as nat, 6, r3);
                    bits::lemma_append_flag(w1, true, r2);
                    bits::lemma_append_flag(w0, true, bits::flag(true, r2));
                }
            }
        },
    }
}

/// Writes one channel's header.
pub fn write_channel_header(
    writer: &mut BitWriter,
    tables: &EncodeTables,
    channel: &FdChannel,
    setup: &TnsSetup,
)
    requires
        channel.wf(),
    ensures
        forall|rest: Seq<bool>|
            #[trigger] (final(writer)@ + rest) == old(writer)@ + channel.header(
                tables@,
                *setup,
                rest,
            ),
{
    let ghost w0 = writer@;
    let ghost sfs = channel.scalefactors@;
    let num_sfb: usize = channel.scalefactors.len();
    let gain: u8 = clamped_gain(channel.scalefactors[0]);
    writer.write_u8(gain, 8);
    let ghost w1 = writer@;
    writer.write_u8(channel.noise_level, 3);
    let ghost w2 = writer@;
    writer.write_u8(channel.noise_offset, 5);
    let ghost w3 = writer@;
    write_deltas(writer, tables, &channel.scalefactors);
    let ghost w4 = writer@;
    let length: u8 = setup.length_field(num_sfb);
    write_tns_data(writer, &channel.tns, length);
    proof {
        assert forall|rest: Seq<bool>|
            #[trigger] (writer@ + rest) == w0 + channel.header(tables@, *setup, rest) by {
            let d = sf_deltas(tables@, sfs, num_sfb as int);
            let t = tns_data(channel.tns, length as int, rest);
            assert(writer@ + rest == w4 + t);
            assert((w3 + d) + t =~= w3 + (d + t));
            let r2 = bits::field(channel.noise_offset as nat, 5, d + t);
            let r1 = bits::field(channel.noise_level as nat, 3, r2);
            bits::lemma_append_field(w2, channel.noise_offset as nat, 5, d + t);
            bits::lemma_append_field(w1, channel.noise_level as nat, 3, r2);
            bits::lemma_append_field(w0, gain as nat, 8, r1);
        }
    }
}

/// Writes one channel's block: its header and its spectrum.
pub fn write_channel(
    writer: &mut BitWriter,
    tables: &EncodeTables,
    arith_tables: &ArithTables,
    contexts: &mut Contexts,
    channel: &FdChannel,
    setup: &TnsSetup,
)
    requires
        channel.wf(),
    ensures
        final(writer)@ == old(writer)@ + channel.block(
            tables@,
            *setup,
            arith_tables@,
            old(contexts)@,
        ),
        final(contexts)@ == channel.contexts_after(arith_tables@, old(contexts)@),
{
    let ghost w0 = writer@;
    write_channel_header(writer, tables, channel, setup);
    let ghost w1 = writer@;
    encode_pairs(
        writer,
        contexts,
        arith_tables,
        channel.quant.as_slice(),
        FRAME_PAIRS,
        FRAME_PAIRS,
    );
    proof {
        let block = arith::block_bits(
            arith_tables@,
            old(contexts)@,
            channel.quant@,
            FRAME_PAIRS as nat,
        );
        assert(w1 + block == w0 + channel.header(tables@, *setup, block));
    }
}

/// Encodes one frame of one channel into a byte-aligned raw block.
pub fn encode_frame(
    tables: &EncodeTables,
    arith_tables: &ArithTables,
    contexts: &mut Contexts,
    channel: &FdChannel,
    setup: &TnsSetup,
) -> (r: Vec<u8>)
    requires
        channel.wf(),
    ensures
        bits::bytes(r@) == bits::padded(
            channel.block(tables@, *setup, arith_tables@, old(contexts)@),
        ),
        final(contexts)@ == channel.contexts_after(arith_tables@, old(contexts)@),
{
    let mut writer = BitWriter::with_capacity(FRAME_LEN);
    write_channel(&mut writer, tables, arith_tables, contexts, channel, setup);
    assert(writer@ =~= channel.block(tables@, *setup, arith_tables@, old(contexts)@));
    writer.into_bytes()
}

/// The block of a stereo frame: the mid/side mask and both channels.
pub open spec fn pair_block(
    codes: Codes,
    setup: TnsSetup,
    m: Model,
    mask: Seq<bool>,
    left: FdChannel,
    right: FdChannel,
    hl: History,
    hr: History,
) -> Seq<bool> {
    mask + (left.block(codes, setup, m, hl) + right.block(codes, setup, m, hr))
}

/// Encodes one stereo frame into a byte-aligned raw block. Each channel has
/// its own contexts.
pub fn encode_stereo_frame(
    tables: &EncodeTables,
    arith_tables: &ArithTables,
    left_contexts: &mut Contexts,
    right_contexts: &mut Contexts,
    ms_mask: &Vec<bool>,
    left: &FdChannel,
    right: &FdChannel,
    setup: &TnsSetup,
) -> (r: Vec<u8>)
    requires
        left.wf(),
        right.wf(),
    ensures
        bits::bytes(r@) == bits::padded(
            pair_block(
                tables@,
                *setup,
                arith_tables@,
                ms_mask@,
                *left,
                *right,
                old(left_contexts)@,
                old(right_contexts)@,
            ),
        ),
        final(left_contexts)@ == left.contexts_after(arith_tables@, old(left_contexts)@),
        final(right_contexts)@ == right.contexts_after(arith_tables@, old(right_contexts)@),
{
    let mut writer = BitWriter::with_capacity(2 * FRAME_LEN);
    let mut b: usize = 0;
    assert(writer@ =~= ms_mask@.take(0));
    while b < ms_mask.len()
        invariant
            b <= ms_mask@.len(),
            writer@ == ms_mask@.take(b as int),
        decreases ms_mask@.len() - b,
    {
        writer.write_bit(ms_mask[b]);
        b += 1;
        assert(writer@ =~= ms_mask@.take(b as int));
    }
    assert(ms_mask@.take(b as int) =~= ms_mask@);
    write_channel(&mut writer, tables, arith_tables, left_contexts, left, setup);
    write_channel(&mut writer, tables, arith_tables, right_contexts, right, setup);
    assert(writer@ =~= pair_block(
        tables@,
        *setup,
        arith_tables@,
        ms_mask@,
        *left,
        *right,
        old(left_contexts)@,
        old(right_contexts)@,
    ));
    writer.into_bytes()
}

/// What a trial costs: the bits of its scalefactors and of its spectrum.
pub open spec fn trial_bits(
    codes: Codes,
    m: Model,
    h: History,
    sfs: Seq<i32>,
    quant: Seq<i32>,
) -> nat {
    scale_factor_data(codes, sfs).len() + arith::block_bits(m, h, quant, quant.len() / 2).len()
}

/// The exact bits that a trial would cost, measured by encoding it against a
/// copy of the contexts: a trial that is not the final choice must not touch
/// the real ones.
pub fn trial_cost(
    tables: &EncodeTables,
    arith_tables: &ArithTables,
    contexts: &Contexts,
    scalefactors: &Vec<i32>,
    quant: &Vec<i32>,
) -> (r: usize)
    requires
        scalefactors@.len() >= 1,
        steps_fit(scalefactors@),
        quant@.len() / 2 <= MAX_PAIRS,
        arith::codable(quant@, quant@.len() / 2),
        trial_bits(tables@, arith_tables@, contexts@, scalefactors@, quant@) <= usize::MAX,
    ensures
        r == trial_bits(tables@, arith_tables@, contexts@, scalefactors@, quant@),
{
    let mut writer = BitWriter::with_capacity(quant.len());
    write_scale_factor_data(&mut writer, tables, scalefactors);
    let mut scratch: Contexts = contexts.clone();
    let pairs: usize = quant.len() / 2;
    encode_pairs(&mut writer, &mut scratch, arith_tables, quant.as_slice(), pairs, pairs);
    writer.bits_written()
}

/// A scalefactor brought into the range of the bitstream and within one
/// delta's reach of the lowest.
pub open spec fn settled(sf: int, top: int) -> int {
    let capped = rate::capped(sf, top);
    if capped < 0 {
        0
    } else if capped > 255 {
        255
    } else {
        capped
    }
}

/// The scalefactors of a trial: those of the bands that carry something are
/// brought within one delta's reach of the lowest of them; the others stand at
/// unit gain. All are brought into the range of the bitstream.
pub fn settle_scalefactors(assigned: &[Option<i32>]) -> (r: Vec<i32>)
    requires
        rate::ceiling(assigned@) <= i32::MAX,
    ensures
        r@.len() == assigned@.len(),
        forall|b: int|
            0 <= b < assigned@.len() ==> #[trigger] r@[b] == settled(
                match assigned@[b] {
                    Some(x) => x as int,
                    None => SF_OFFSET as int,
                },
                rate::ceiling(assigned@),
            ),
{
    let mut low: Option<i32> = None;
    let mut b: usize = 0;
    while b < assigned.len()
        invariant
            b <= assigned@.len(),
            low == rate::lowest(assigned@, b as int),
        decreases assigned@.len() - b,
    {
        if let Some(x) = assigned[b] {
            low = match low {
                Some(y) => Some(
                    if y <= x {
                        y
                    } else {
                        x
                    },
                ),
                None => Some(x),
            };
        }
        b += 1;
    }
    let top: i32 = match low {
        Some(x) => x + MAX_SCALEFACTOR_DELTA,
        None => MAX_SCALEFACTOR,
    };
    assert(top == rate::ceiling(assigned@));
    let mut out: Vec<i32> = Vec::new();
    let mut b: usize = 0;
    while b < assigned.len()
        invariant
            b <= assigned@.len(),
            top == rate::ceiling(assigned@),
            out@.len() == b,
            forall|k: int|
                0 <= k < b ==> #[trigger] out@[k] == settled(
                    match assigned@[k] {
                        Some(x) => x as int,
                        None => SF_OFFSET as int,
                    },
                    rate::ceiling(assigned@),
                ),
        decreases assigned@.len() - b,
    {
        let sf: i32 = match assigned[b] {
            Some(x) => x,
            None => SF_OFFSET,
        };
        let capped: i32 = if sf <= top {
            sf
        } else {
            top
        };
        out.push(clamped_gain(capped) as i32);
        b += 1;
    }
    out
}

/// Whether all lines of a band are zero.
pub open spec fn is_silent(quant: Seq<i32>, lo: int, hi: int) -> bool {
    forall|i: int| lo <= i < hi ==> #[trigger] quant[i] == 0
}

/// Whether a band is filled with noise: it has lines, starts high enough, and
/// all its lines are zero.
pub open spec fn is_noise_band(offsets: Seq<usize>, quant: Seq<i32>, b: int) -> bool {
    let lo = offsets[b] as int;
    let hi = if offsets[b + 1] <= quant.len() {
        offsets[b + 1] as int
    } else {
        quant.len() as int
    };
    lo < hi && lo >= NOISE_FILLING_START_OFFSET && is_silent(quant, lo, hi)
}

/// Says of each band whether it is filled with noise.
pub fn noise_bands(offsets: &[usize], num_sfb: usize, quant: &[i32]) -> (r: Vec<bool>)
    requires
        num_sfb < offsets@.len(),
    ensures
        r@.len() == num_sfb,
        forall|b: int|
            0 <= b < num_sfb ==> #[trigger] r@[b] == is_noise_band(offsets@, quant@, b),
{
    let mut out: Vec<bool> = Vec::new();
    let mut b: usize = 0;
    while b < num_sfb
        invariant
            b <= num_sfb < offsets@.len(),
            out@.len() == b,
            forall|k: int|
                0 <= k < b ==> #[trigger] out@[k] == is_noise_band(offsets@, quant@, k),
        decreases num_sfb - b,
    {
        let lo: usize = offsets[b];
        let end: usize = offsets[b + 1];
        let hi: usize = if end <= quant.len() {
            end
        } else {
            quant.len()
        };
        let mut silent: bool = lo < hi && lo >= NOISE_FILLING_START_OFFSET;
        if silent {
            let mut i: usize = lo;
            while i < hi
                invariant
                    lo <= i <= hi <= quant@.len(),
                    silent == is_silent(quant@, lo as int, i as int),
                decreases hi - i,
            {
                if quant[i] != 0 {
                    silent = false;
                }
                i += 1;
                assert(silent == is_silent(quant@, lo as int, i as int)) by {
                    if !silent && is_silent(quant@, lo as int, i as int) {
                        assert(is_silent(quant@, lo as int, i - 1));
                        assert(quant@[i - 1] == 0);
                    }
                }
            }
        }
        out.push(silent);
        b += 1;
    }
    out
}

/// The noise parameters that are sent for a level: none at all for level zero,
/// else the level and the neutral offset.
pub fn noise_parameters(level: u8) -> (r: (u8, u8))
    ensures
        r == if level == 0 {
            (0u8, 0u8)
        } else {
            (level, NEUTRAL_NOISE_OFFSET)
        },
{
    if level == 0 {
        (0, 0)
    } else {
        (level, NEUTRAL_NOISE_OFFSET)
    }
}

/// The gain field of a scalefactor is the scalefactor, as far as eight bits
/// go.
pub proof fn law_gain_field(sf: i32)
    ensures
        0 <= sf <= 255 ==> gain_field(sf) == sf,
        sf < 0 ==> gain_field(sf) == 0,
        sf > 255 ==> gain_field(sf) == 255,
{
}

/// The deltas of scalefactors end with the codeword of the last step, where
/// it has one; the first scalefactor has none.
pub proof fn law_deltas_step_by_step(codes: Codes, sfs: Seq<i32>, n: int)
    requires
        n >= 1,
    ensures
        sf_deltas(codes, sfs, 1).len() == 0,
        ({
            let step = sfs[n] - sfs[n - 1];
            let more = sf_deltas(codes, sfs, n + 1);
            let less = sf_deltas(codes, sfs, n);
            &&& -60 <= step <= 60 && codes.scalefactor.len() == 121 && codes.scalefactor[60
                + step].len > 0 ==> more == less + bits::uint(
                codes.scalefactor[60 + step].bits as nat,
                codes.scalefactor[60 + step].len as nat,
            )
            &&& codes.scalefactor.len() == 121 && !(-60 <= step <= 60) ==> more == less
        }),
{
}

/// A scalefactor that is settled lies between 0 and 255. It stays what it was
/// where it lay there and not above the top; otherwise it is moved to the
/// nearest place.
pub proof fn law_settled_scalefactor(sf: int, top: int, other: int)
    ensures
        ({
            let r = settled(sf, top);
            &&& 0 <= r <= 255
            &&& top >= 0 ==> r <= top
            &&& 0 <= other <= 255 && other <= top ==> (if r >= sf {
                r - sf
            } else {
                sf - r
            }) <= (if other >= sf {
                other - sf
            } else {
                sf - other
            })
        }),
{
}

/// A band is filled with noise if it starts at line 160 or above, has lines,
/// and none of those that there are is other than zero.
pub proof fn law_noise_band(offsets: Seq<usize>, quant: Seq<i32>, b: int)
    requires
        0 <= b,
        b + 1 < offsets.len(),
    ensures
        is_noise_band(offsets, quant, b) <==> {
            &&& offsets[b] >= 160
            &&& exists|i: int| offsets[b] <= i < offsets[b + 1] && i < quant.len() && #[trigger] quant[i] == 0
            &&& forall|i: int|
                offsets[b] <= i < offsets[b + 1] && i < quant.len() ==> #[trigger] quant[i] == 0
        },
{
    if is_noise_band(offsets, quant, b) {
        assert(quant[offsets[b] as int] == 0);
    }
}

/// The block of a pair starts with the mask, then come the left channel and
/// the right one.
pub proof fn law_order_in_a_pair(
    codes: Codes,
    setup: TnsSetup,
    m: Model,
    mask: Seq<bool>,
    left: FdChannel,
    right: FdChannel,
    hl: History,
    hr: History,
)
    ensures
        ({
            let s = pair_block(codes, setup, m, mask, left, right, hl, hr);
            let a = left.block(codes, setup, m, hl);
            let b = right.block(codes, setup, m, hr);
            let n = mask.len() as int;
            &&& s.take(n) == mask
            &&& s.subrange(n, n + a.len()) == a
            &&& s.skip(n + a.len()) == b
        }),
{
    let s = pair_block(codes, setup, m, mask, left, right, hl, hr);
    let a = left.block(codes, setup, m, hl);
    let b = right.block(codes, setup, m, hr);
    let n = mask.len() as int;
    assert(s.take(n) =~= mask);
    assert(s.subrange(n, n + a.len()) =~= a);
    assert(s.skip(n + a.len()) =~= b);
}

/// The bands of the path follow one another from line zero with the widths of
/// the table for 48000 Hz.
pub proof fn law_bands_of_the_path(k: int)
    requires
        0 <= k < 49,
    ensures
        fd_offsets().len() == 50,
        fd_offsets()[0] == 0,
        fd_offsets()[k + 1] == fd_offsets()[k] + SFB_48_1024[k],
{
    scalefactor::lemma_offset_grows(SFB_48_1024@, 0, k);
    scalefactor::lemma_offset_grows(SFB_48_1024@, 0, k + 1);
}

/// A trial costs eight bits for the gain, its deltas, and its lines.
pub proof fn law_cost_of_a_trial(codes: Codes, m: Model, h: History, sfs: Seq<i32>, quant: Seq<i32>)
    requires
        sfs.len() >= 1,
    ensures
        trial_bits(codes, m, h, sfs, quant) == 8 + sf_deltas(codes, sfs, sfs.len() as int).len()
            + arith::block_bits(m, h, quant, quant.len() / 2).len(),
{
    reveal(bits::field);
    bits::lemma_uint_len(gain_field(sfs[0]), 8);
}

} // verus!
