//! A minimal, self-describing container around coded USAC frames.
//!
//! A small header (magic, version, channel count, sample-rate index) is
//! followed by a sequence of frames, each a length and as many bytes. The
//! transport headers of the other formats cannot carry the object type of this
//! codec.

use crate::decoder::usac::acelp;
use crate::error::{Error, FormatError, Result};
use crate::text;
use crate::types::SamplingRate;
use vstd::prelude::*;

verus! {

/// Identifies this container: `VUSC`.
pub const MAGIC: [u8; 4] = [0x56, 0x55, 0x53, 0x43];

/// Bumped if the header or frame shape below ever changes incompatibly.
pub const VERSION: u8 = 1;

/// Magic, version, channel count, sample-rate index and one reserved byte.
pub const HEADER_LEN: usize = 8;

/// The header of a stream.
pub open spec fn header(channels: u8, rate_index: u8) -> Seq<u8> {
    MAGIC@ + seq![VERSION, channels, rate_index, 0]
}

/// A number as four bytes, least significant first.
pub open spec fn le32(n: nat) -> Seq<u8> {
    seq![
        (n % 256) as u8,
        (n / 0x100 % 256) as u8,
        (n / 0x1_0000 % 256) as u8,
        (n / 0x100_0000 % 256) as u8,
    ]
}

/// A frame: its length and its bytes.
pub open spec fn frame(block: Seq<u8>) -> Seq<u8> {
    le32(block.len()) + block
}

/// The first `n` frames of a stream.
pub open spec fn frames(blocks: Seq<Seq<u8>>, n: nat) -> Seq<u8>
    decreases n,
{
    if n == 0 {
        Seq::empty()
    } else {
        frames(blocks, (n - 1) as nat) + frame(blocks[n - 1])
    }
}

/// Whether the codec has a path for these channels.
pub open spec fn has_channels(channels: int) -> bool {
    channels == 1 || channels == 2
}

/// The index of a rate that the codec has a band table for.
pub open spec fn rate_index(hz: int) -> Option<u8> {
    if hz == 44_100 {
        Some(4)
    } else if hz == 48_000 {
        Some(3)
    } else {
        None
    }
}

pub open spec fn bad_channels(channels: nat) -> Seq<char> {
    "USAC FD path supports 1 or 2 channels, got "@ + text::decimal_text(channels)
}

pub open spec fn bad_rate(hz: nat) -> Seq<char> {
    "USAC FD path supports 44100 or 48000 Hz only, got "@ + text::decimal_text(hz)
}

/// Starts a stream: the header, or why there cannot be one.
pub fn start(channels: usize, sample_rate_hz: u32) -> (r: Result<Vec<u8>>)
    ensures
        match r {
            Ok(out) => has_channels(channels as int) && rate_index(sample_rate_hz as int) is Some
                && out@ == header(channels as u8, rate_index(sample_rate_hz as int)->0),
            Err(e) => if !has_channels(channels as int) {
                e@ == acelp::invalid_usac(bad_channels(channels as nat))
            } else {
                rate_index(sample_rate_hz as int) is None && e@ == acelp::invalid_usac(
                    bad_rate(sample_rate_hz as nat),
                )
            },
        },
{
    if channels != 1 && channels != 2 {
        return Err(
            Error::Format(
                FormatError::InvalidUsacContainer(
                    text::with_number(
                        "USAC FD path supports 1 or 2 channels, got ",
                        channels as u64,
                    ),
                ),
            ),
        );
    }
    if sample_rate_hz != 44_100 && sample_rate_hz != 48_000 {
        return Err(
            Error::Format(
                FormatError::InvalidUsacContainer(
                    text::with_number(
                        "USAC FD path supports 44100 or 48000 Hz only, got ",
                        sample_rate_hz as u64,
                    ),
                ),
            ),
        );
    }
    let rate: SamplingRate = SamplingRate::from_hz(sample_rate_hz);
    let index: u8 = match rate.to_index() {
        Some(index) => index,
        None => 4,
    };
    let mut out: Vec<u8> = Vec::new();
    out.push(MAGIC[0]);
    out.push(MAGIC[1]);
    out.push(MAGIC[2]);
    out.push(MAGIC[3]);
    out.push(VERSION);
    out.push(channels as u8);
    out.push(index);
    out.push(0);
    assert(out@ =~= header(channels as u8, rate_index(sample_rate_hz as int)->0));
    Ok(out)
}

fn push_bytes(out: &mut Vec<u8>, bytes: &[u8])
    ensures
        final(out)@ == old(out)@ + bytes@,
{
    let ghost begun = out@;
    let mut i: usize = 0;
    assert(begun + bytes@.take(0) =~= begun);
    while i < bytes.len()
        invariant
            i <= bytes@.len(),
            out@ == begun + bytes@.take(i as int),
        decreases bytes@.len() - i,
    {
        out.push(bytes[i]);
        i += 1;
        assert(out@ =~= begun + bytes@.take(i as int));
    }
    assert(bytes@.take(i as int) =~= bytes@);
}

/// Append one frame.
pub fn push_frame(out: &mut Vec<u8>, block: &[u8])
    requires
        block@.len() <= u32::MAX,
    ensures
        final(out)@ == old(out)@ + frame(block@),
{
    let ghost begun = out@;
    let n: usize = block.len();
    out.push((n % 256) as u8);
    out.push((n / 0x100 % 256) as u8);
    out.push((n / 0x1_0000 % 256) as u8);
    out.push((n / 0x100_0000 % 256) as u8);
    assert(out@ =~= begun + le32(n as nat));
    push_bytes(out, block);
    assert(out@ =~= begun + frame(block@));
}

/// The blocks of a stream as byte strings.
pub open spec fn contents(blocks: Seq<Vec<u8>>) -> Seq<Seq<u8>> {
    blocks.map_values(|b: Vec<u8>| b@)
}

/// A whole stream of coded frames.
pub fn encode(blocks: &Vec<Vec<u8>>, channels: usize, sample_rate_hz: u32) -> (r: Result<Vec<u8>>)
    requires
        forall|k: int| 0 <= k < blocks@.len() ==> (#[trigger] blocks@[k])@.len() <= u32::MAX,
    ensures
        match r {
            Ok(out) => has_channels(channels as int) && rate_index(sample_rate_hz as int) is Some
                && out@ == header(channels as u8, rate_index(sample_rate_hz as int)->0) + frames(
                contents(blocks@),
                blocks@.len(),
            ),
            Err(e) => if !has_channels(channels as int) {
                e@ == acelp::invalid_usac(bad_channels(channels as nat))
            } else {
                rate_index(sample_rate_hz as int) is None && e@ == acelp::invalid_usac(
                    bad_rate(sample_rate_hz as nat),
                )
            },
        },
{
    let mut out: Vec<u8> = start(channels, sample_rate_hz)?;
    let ghost head = out@;
    let mut k: usize = 0;
    assert(head + Seq::<u8>::empty() =~= head);
    while k < blocks.len()
        invariant
            k <= blocks@.len(),
            forall|k: int| 0 <= k < blocks@.len() ==> (#[trigger] blocks@[k])@.len() <= u32::MAX,
            out@ == head + frames(contents(blocks@), k as nat),
        decreases blocks@.len() - k,
    {
        assert(blocks@[k as int]@.len() <= u32::MAX);
        push_frame(&mut out, blocks[k].as_slice());
        k += 1;
        assert(out@ =~= head + frames(contents(blocks@), k as nat));
    }
    Ok(out)
}

/// Sample `i` of an interleaved stream, silence past its end.
pub open spec fn sample_or_silence(samples: Seq<i16>, i: int) -> i16 {
    if 0 <= i < samples.len() {
        samples[i]
    } else {
        0
    }
}

/// How many frames of `len` samples per channel a stream takes: the last one
/// is padded with silence.
pub fn frame_count(samples: usize, channels: usize, len: usize) -> (r: usize)
    requires
        channels > 0,
        len > 0,
        channels * len <= usize::MAX,
    ensures
        r * (channels * len) >= samples,
        r > 0 ==> (r - 1) * (channels * len) < samples,
        samples == 0 ==> r == 0,
{
    proof {
        assert(channels * len > 0) by (nonlinear_arith)
            requires
                channels > 0,
                len > 0,
        ;
    }
    let stride: usize = channels * len;
    let whole: usize = samples / stride;
    proof {
        vstd::arithmetic::div_mod::lemma_fundamental_div_mod(samples as int, stride as int);
        assert(stride * (samples as int / stride as int) == whole * stride) by (nonlinear_arith)
            requires
                whole == samples as int / stride as int,
        ;
    }
    if samples % stride == 0 {
        assert((whole - 1) * stride == whole * stride - stride) by (nonlinear_arith);
        assert(samples == 0 ==> whole == 0) by (nonlinear_arith)
            requires
                samples == whole * stride,
                stride > 0,
        ;
        whole
    } else {
        assert((whole + 1) * stride == whole * stride + stride) by (nonlinear_arith);
        assert(whole < usize::MAX) by (nonlinear_arith)
            requires
                whole * stride < samples,
                samples <= usize::MAX,
                stride >= 1,
        ;
        whole + 1
    }
}

/// `len` samples of one channel out of an interleaved buffer, starting at
/// interleaved index `start`; positions past the end are silence.
pub fn fill_channel(
    samples: &[i16],
    start: usize,
    channels: usize,
    channel: usize,
    len: usize,
) -> (r: Vec<i16>)
    requires
        start + len * channels + channel <= usize::MAX,
    ensures
        r@ == Seq::new(
            len as nat,
            |i: int| sample_or_silence(samples@, start + i * channels + channel),
        ),
{
    let ghost want = Seq::new(
        len as nat,
        |i: int| sample_or_silence(samples@, start + i * channels + channel),
    );
    let mut out: Vec<i16> = Vec::new();
    let mut i: usize = 0;
    while i < len
        invariant
            i <= len,
            start + len * channels + channel <= usize::MAX,
            want == Seq::new(
                len as nat,
                |i: int| sample_or_silence(samples@, start + i * channels + channel),
            ),
            out@ == want.take(i as int),
        decreases len - i,
    {
        assert(i * channels <= len * channels) by (nonlinear_arith)
            requires
                i <= len,
                channels >= 0,
        ;
        let at: usize = start + i * channels + channel;
        if at < samples.len() {
            out.push(samples[at]);
        } else {
            out.push(0);
        }
        i += 1;
        assert(out@ =~= want.take(i as int));
    }
    assert(want.take(i as int) =~= want);
    out
}

/// The rates that have an index are 44100 Hz and 48000 Hz, and the index is
/// that of the rate in the table of all.
pub proof fn law_rate_index(hz: u32)
    ensures
        rate_index(hz as int) is Some <==> hz == 44_100 || hz == 48_000,
        rate_index(hz as int) matches Some(i) ==> SamplingRate::of_hz(hz).index() == Some(i),
{
}

/// Behind the end of a stream there is silence, and nothing else anywhere
/// before it than what the stream holds.
pub proof fn law_silence_past_the_end(samples: Seq<i16>, more: nat, i: int)
    ensures
        i >= samples.len() ==> sample_or_silence(samples, i) == 0,
        0 <= i < samples.len() ==> sample_or_silence(samples, i) == samples[i],
        sample_or_silence(samples + Seq::new(more, |k: int| 0i16), i) == sample_or_silence(
            samples,
            i,
        ),
{
}

} // verus!
