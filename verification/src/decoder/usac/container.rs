//! Reads back what [`crate::encoder::usac::container`] writes.

use crate::decoder::usac::acelp;
use crate::encoder::usac::container as writing;
use crate::encoder::usac::container::{HEADER_LEN, MAGIC, VERSION};
use crate::encoder::usac::fd::FRAME_LEN;
use crate::error::{Error, ErrorView, FormatError, Result};
use crate::text;
use crate::types::SamplingRate;
use vstd::prelude::*;

verus! {

/// One decoded stream: interleaved 16-bit PCM plus the channel count and
/// sample rate the container's header carried.
#[derive(Debug, Clone)]
pub struct DecodedUsac {
    pub samples: Vec<i16>,
    pub channels: usize,
    pub sample_rate_hz: u32,
}

/// Whether a byte string starts with the container's magic and is long enough
/// for its header.
pub open spec fn is_container(bytes: Seq<u8>) -> bool {
    bytes.len() >= HEADER_LEN && bytes.take(4) == MAGIC@
}

/// True if `bytes` starts with this container's magic.
pub fn is_usac_container(bytes: &[u8]) -> (r: bool)
    ensures
        r == is_container(bytes@),
{
    if bytes.len() < HEADER_LEN {
        return false;
    }
    let r: bool = bytes[0] == MAGIC[0] && bytes[1] == MAGIC[1] && bytes[2] == MAGIC[2] && bytes[3]
        == MAGIC[3];
    proof {
        let head = bytes@.take(4);
        if r {
            assert(head =~= MAGIC@);
        } else if head == MAGIC@ {
            assert(head[0] == bytes@[0] && head[1] == bytes@[1] && head[2] == bytes@[2] && head[3]
                == bytes@[3]);
        }
    }
    r
}

/// What a container's header says.
#[derive(Debug, Clone, Copy, PartialEq, Eq, Structural)]
pub struct ContainerHeader {
    pub channels: usize,
    pub sample_rate_hz: u32,
}

/// What the header of a byte string says, or what is wrong with it.
pub open spec fn header_of(bytes: Seq<u8>) -> std::result::Result<ContainerHeader, ErrorView> {
    if !is_container(bytes) {
        Err(acelp::invalid_usac("missing VUSC magic"@))
    } else if bytes[4] != VERSION {
        Err(
            acelp::invalid_usac(
                "unsupported container version "@ + text::decimal_text(bytes[4] as nat)
                    + ", expected 1"@,
            ),
        )
    } else {
        match SamplingRate::at_index(bytes[6]) {
            None => Err(
                acelp::invalid_usac(
                    "invalid sample-rate index "@ + text::decimal_text(bytes[6] as nat),
                ),
            ),
            Some(rate) => if bytes[5] == 1 || bytes[5] == 2 {
                Ok(
                    ContainerHeader {
                        channels: bytes[5] as usize,
                        sample_rate_hz: rate.in_hz(),
                    },
                )
            } else {
                Err(acelp::invalid_usac(writing::bad_channels(bytes[5] as nat)))
            },
        }
    }
}

/// Reads a container's header.
pub fn parse_header(bytes: &[u8]) -> (r: Result<ContainerHeader>)
    ensures
        crate::error::outcome(r) == header_of(bytes@),
{
    if !is_usac_container(bytes) {
        let mut message: String = String::new();
        message.append("missing VUSC magic");
        assert(message@ =~= "missing VUSC magic"@);
        return Err(Error::Format(FormatError::InvalidUsacContainer(message)));
    }
    if bytes[4] != VERSION {
        let mut message: String = text::with_number(
            "unsupported container version ",
            bytes[4] as u64,
        );
        message.append(", expected 1");
        return Err(Error::Format(FormatError::InvalidUsacContainer(message)));
    }
    let rate: SamplingRate = match SamplingRate::from_index(bytes[6]) {
        Some(rate) => rate,
        None => {
            return Err(
                Error::Format(
                    FormatError::InvalidUsacContainer(
                        text::with_number("invalid sample-rate index ", bytes[6] as u64),
                    ),
                ),
            );
        },
    };
    if bytes[5] != 1 && bytes[5] != 2 {
        return Err(
            Error::Format(
                FormatError::InvalidUsacContainer(
                    text::with_number(
                        "USAC FD path supports 1 or 2 channels, got ",
                        bytes[5] as u64,
                    ),
                ),
            ),
        );
    }
    Ok(ContainerHeader { channels: bytes[5] as usize, sample_rate_hz: rate.hz() })
}

/// The number that four bytes hold, least significant first.
pub open spec fn from_le32(b: Seq<u8>) -> nat {
    (b[0] + 0x100 * b[1] + 0x1_0000 * b[2] + 0x100_0000 * b[3]) as nat
}

/// The frame at `offset`, as the places where its bytes start and end: none at
/// the end of the stream, and an error where the stream breaks off.
pub open spec fn frame_at(bytes: Seq<u8>, offset: int) -> std::result::Result<
    Option<(int, int)>,
    ErrorView,
> {
    if offset == bytes.len() {
        Ok(None)
    } else if offset + 4 > bytes.len() {
        Err(acelp::invalid_usac("truncated frame length prefix"@))
    } else {
        let len = from_le32(bytes.subrange(offset, offset + 4));
        let start = offset + 4;
        if start + len > bytes.len() {
            Err(
                acelp::invalid_usac(
                    "frame at offset "@ + text::decimal_text(offset as nat) + " declares "@
                        + text::decimal_text(len) + " bytes, only "@ + text::decimal_text(
                        (bytes.len() - start) as nat,
                    ) + " remain"@,
                ),
            )
        } else {
            Ok(Some((start, start + len)))
        }
    }
}

/// Reads one frame at `offset`, returning where its bytes start and end, or
/// `None` once the stream is exhausted.
pub fn read_frame(bytes: &[u8], offset: usize) -> (r: Result<Option<(usize, usize)>>)
    ensures
        match r {
            Ok(None) => frame_at(bytes@, offset as int) == Ok::<Option<(int, int)>, ErrorView>(None),
            Ok(Some((start, end))) => frame_at(bytes@, offset as int) == Ok::<
                Option<(int, int)>,
                ErrorView,
            >(Some((start as int, end as int))) && offset < start <= end <= bytes@.len(),
            Err(e) => frame_at(bytes@, offset as int) == Err::<Option<(int, int)>, ErrorView>(e@),
        },
{
    let n: usize = bytes.len();
    if offset == n {
        return Ok(None);
    }
    if offset > n || n - offset < 4 {
        let mut message: String = String::new();
        message.append("truncated frame length prefix");
        assert(message@ =~= "truncated frame length prefix"@);
        return Err(Error::Format(FormatError::InvalidUsacContainer(message)));
    }
    let len: u64 = bytes[offset] as u64 + 0x100 * bytes[offset + 1] as u64 + 0x1_0000
        * bytes[offset + 2] as u64 + 0x100_0000 * bytes[offset + 3] as u64;
    assert(len == from_le32(bytes@.subrange(offset as int, offset + 4)));
    let start: usize = offset + 4;
    let left: usize = n - start;
    if len > left as u64 {
        let mut message: String = text::with_number("frame at offset ", offset as u64);
        message.append(" declares ");
        message.append(text::decimal(len).as_str());
        message.append(" bytes, only ");
        message.append(text::decimal(left as u64).as_str());
        message.append(" remain");
        return Err(Error::Format(FormatError::InvalidUsacContainer(message)));
    }
    Ok(Some((start, start + len as usize)))
}

/// The frames of a stream from `offset` on.
pub open spec fn frames_from(bytes: Seq<u8>, offset: int) -> std::result::Result<
    Seq<Seq<u8>>,
    ErrorView,
>
    decreases bytes.len() - offset,
{
    match frame_at(bytes, offset) {
        Err(e) => Err(e),
        Ok(None) => Ok(Seq::empty()),
        Ok(Some((start, end))) => if end <= offset {
            Ok(Seq::empty())
        } else {
            match frames_from(bytes, end) {
                Err(e) => Err(e),
                Ok(more) => Ok(seq![bytes.subrange(start, end)] + more),
            }
        },
    }
}

/// A stream taken out of its container.
#[derive(Debug, Clone)]
pub struct CodedStream {
    pub header: ContainerHeader,
    pub frames: Vec<Vec<u8>>,
}

fn copy_range(bytes: &[u8], start: usize, end: usize) -> (r: Vec<u8>)
    requires
        start <= end <= bytes@.len(),
    ensures
        r@ == bytes@.subrange(start as int, end as int),
{
    let mut out: Vec<u8> = Vec::new();
    let mut i: usize = start;
    while i < end
        invariant
            start <= i <= end <= bytes@.len(),
            out@ == bytes@.subrange(start as int, i as int),
        decreases end - i,
    {
        out.push(bytes[i]);
        i += 1;
        assert(out@ =~= bytes@.subrange(start as int, i as int));
    }
    out
}

/// What prefixing frames does to the outcome of reading the rest.
spec fn prefixed(
    found: Seq<Seq<u8>>,
    rest: std::result::Result<Seq<Seq<u8>>, ErrorView>,
) -> std::result::Result<Seq<Seq<u8>>, ErrorView> {
    match rest {
        Err(e) => Err(e),
        Ok(more) => Ok(found + more),
    }
}

/// Takes a whole stream out of its container.
pub fn decode(bytes: &[u8]) -> (r: Result<CodedStream>)
    ensures
        match header_of(bytes@) {
            Err(e) => r is Err && (r->Err_0)@ == e,
            Ok(header) => match frames_from(bytes@, HEADER_LEN as int) {
                Err(e) => r is Err && (r->Err_0)@ == e,
                Ok(found) => r is Ok && (r->Ok_0).header == header && writing::contents(
                    (r->Ok_0).frames@,
                ) == found,
            },
        },
{
    let header: ContainerHeader = parse_header(bytes)?;
    let ghost goal = frames_from(bytes@, HEADER_LEN as int);
    let mut frames: Vec<Vec<u8>> = Vec::new();
    let mut offset: usize = HEADER_LEN;
    let mut more: bool = true;
    proof {
        assert(writing::contents(frames@) =~= Seq::<Seq<u8>>::empty());
        assert(prefixed(Seq::empty(), goal) == goal) by {
            if let Ok(found) = goal {
                assert(Seq::<Seq<u8>>::empty() + found =~= found);
            }
        }
    }
    while more
        invariant
            header_of(bytes@) == Ok::<ContainerHeader, ErrorView>(header),
            goal == frames_from(bytes@, HEADER_LEN as int),
            offset <= bytes@.len(),
            more ==> goal == prefixed(
                writing::contents(frames@),
                frames_from(bytes@, offset as int),
            ),
            !more ==> goal == Ok::<Seq<Seq<u8>>, ErrorView>(writing::contents(frames@)),
        decreases bytes@.len() - offset + (if more { 1int } else { 0 }),
    {
        match read_frame(bytes, offset)? {
            None => {
                proof {
                    assert(writing::contents(frames@) + Seq::<Seq<u8>>::empty()
                        =~= writing::contents(frames@));
                }
                more = false;
            },
            Some((start, end)) => {
                let ghost before = frames@;
                let block: Vec<u8> = copy_range(bytes, start, end);
                let ghost piece = block@;
                frames.push(block);
                proof {
                    assert(writing::contents(frames@) =~= writing::contents(before).push(piece));
                    if let Ok(later) = frames_from(bytes@, end as int) {
                        assert(writing::contents(before) + (seq![piece] + later)
                            =~= writing::contents(frames@) + later);
                    }
                }
                offset = end;
            },
        }
    }
    Ok(CodedStream { header, frames })
}

proof fn lemma_le32(n: nat)
    requires
        n <= u32::MAX,
    ensures
        from_le32(writing::le32(n)) == n,
{
}

/// A frame behind `before` is found there.
proof fn lemma_frame_at(bytes: Seq<u8>, before: Seq<u8>, block: Seq<u8>)
    requires
        block.len() <= u32::MAX,
        before.len() + 4 + block.len() <= bytes.len(),
        bytes.take((before.len() + 4 + block.len()) as int) == before + writing::frame(block),
    ensures
        ({
            let offset = before.len() as int;
            let end = (before.len() + 4 + block.len()) as int;
            &&& frame_at(bytes, offset) == Ok::<Option<(int, int)>, ErrorView>(
                Some((offset + 4, end)),
            )
            &&& bytes.subrange(offset + 4, end) == block
        }),
{
    let offset = before.len() as int;
    let end = (before.len() + 4 + block.len()) as int;
    let known = bytes.take(end);
    assert forall|i: int| 0 <= i < 4 implies bytes.subrange(offset, offset + 4)[i]
        == #[trigger] writing::le32(block.len())[i] by {
        assert(known[offset + i] == bytes[offset + i]);
    }
    assert(bytes.subrange(offset, offset + 4) =~= writing::le32(block.len()));
    lemma_le32(block.len());
    assert forall|i: int| 0 <= i < block.len() implies bytes.subrange(offset + 4, end)[i]
        == #[trigger] block[i] by {
        assert(known[offset + 4 + i] == bytes[offset + 4 + i]);
    }
    assert(bytes.subrange(offset + 4, end) =~= block);
}

proof fn lemma_frames(head: Seq<u8>, blocks: Seq<Seq<u8>>, k: nat)
    requires
        k <= blocks.len(),
        forall|i: int| 0 <= i < blocks.len() ==> (#[trigger] blocks[i]).len() <= u32::MAX,
    ensures
        frames_from(
            head + writing::frames(blocks, blocks.len()),
            (head.len() + writing::frames(blocks, k).len()) as int,
        ) == Ok::<Seq<Seq<u8>>, ErrorView>(blocks.skip(k as int)),
    decreases blocks.len() - k,
{
    let n = blocks.len();
    let all = writing::frames(blocks, n);
    let bytes = head + all;
    if k == n {
        assert(blocks.skip(k as int) =~= Seq::<Seq<u8>>::empty());
    } else {
        lemma_frames(head, blocks, k + 1);
        let block = blocks[k as int];
        assert(block.len() <= u32::MAX);
        let done = writing::frames(blocks, k);
        let next = writing::frames(blocks, k + 1);
        lemma_frames_prefix(blocks, k + 1, n);
        assert(next == done + writing::frame(block));
        let before = head + done;
        assert(bytes.take((before.len() + 4 + block.len()) as int) =~= before + writing::frame(
            block,
        )) by {
            assert(all.take(next.len() as int) == next);
            assert(bytes.take((head.len() + next.len()) as int) =~= head + all.take(
                next.len() as int,
            ));
            assert(head + (done + writing::frame(block)) =~= before + writing::frame(block));
        }
        lemma_frame_at(bytes, before, block);
        assert(seq![block] + blocks.skip(k as int + 1) =~= blocks.skip(k as int));
    }
}

/// The frames of fewer blocks are the beginning of those of more.
proof fn lemma_frames_prefix(blocks: Seq<Seq<u8>>, k: nat, n: nat)
    requires
        k <= n <= blocks.len(),
    ensures
        writing::frames(blocks, k).len() <= writing::frames(blocks, n).len(),
        writing::frames(blocks, n).take(writing::frames(blocks, k).len() as int)
            == writing::frames(blocks, k),
    decreases n,
{
    if k < n {
        lemma_frames_prefix(blocks, k, (n - 1) as nat);
        let short = writing::frames(blocks, k);
        assert(writing::frames(blocks, n).take(short.len() as int) =~= writing::frames(
            blocks,
            (n - 1) as nat,
        ).take(short.len() as int));
    } else {
        assert(writing::frames(blocks, n).take(writing::frames(blocks, n).len() as int)
            =~= writing::frames(blocks, n));
    }
}

/// What was put into a container comes out of it: the channel count, the
/// sample rate and every frame.
pub proof fn law_container_roundtrip(channels: u8, hz: u32, blocks: Seq<Seq<u8>>)
    requires
        channels == 1 || channels == 2,
        hz == 44_100 || hz == 48_000,
        forall|i: int| 0 <= i < blocks.len() ==> (#[trigger] blocks[i]).len() <= u32::MAX,
    ensures
        ({
            let index = writing::rate_index(hz as int)->0;
            let bytes = writing::header(channels, index) + writing::frames(blocks, blocks.len());
            &&& is_container(bytes)
            &&& header_of(bytes) == Ok::<ContainerHeader, ErrorView>(
                ContainerHeader { channels: channels as usize, sample_rate_hz: hz },
            )
            &&& frames_from(bytes, HEADER_LEN as int) == Ok::<Seq<Seq<u8>>, ErrorView>(blocks)
        }),
{
    let index = writing::rate_index(hz as int)->0;
    let head = writing::header(channels, index);
    let bytes = head + writing::frames(blocks, blocks.len());
    assert(bytes.take(4) =~= MAGIC@);
    lemma_frames(head, blocks, 0);
    assert(blocks.skip(0) =~= blocks);
}

/// The samples of `channels` channels of `len` samples each, interleaved.
pub open spec fn interleaved(pcm: Seq<Vec<i16>>, len: nat) -> Seq<i16> {
    Seq::new(
        pcm.len() * len,
        |i: int| pcm[i % (pcm.len() as int)]@[i / (pcm.len() as int)],
    )
}

impl DecodedUsac {
    /// A stream without samples yet.
    pub fn new(header: ContainerHeader) -> (r: Self)
        ensures
            r.samples@.len() == 0,
            r.channels == header.channels,
            r.sample_rate_hz == header.sample_rate_hz,
    {
        DecodedUsac {
            samples: Vec::new(),
            channels: header.channels,
            sample_rate_hz: header.sample_rate_hz,
        }
    }

    /// Appends a frame of `len` samples per channel, interleaving the channels.
    pub fn push_frame(&mut self, pcm: &Vec<Vec<i16>>, len: usize)
        requires
            pcm@.len() > 0,
            forall|c: int| 0 <= c < pcm@.len() ==> (#[trigger] pcm@[c])@.len() == len,
            pcm@.len() * len <= usize::MAX,
        ensures
            final(self).samples@ == old(self).samples@ + interleaved(pcm@, len as nat),
            final(self).channels == old(self).channels,
            final(self).sample_rate_hz == old(self).sample_rate_hz,
    {
        let n: usize = pcm.len();
        let ghost begun = self.samples@;
        let ghost want = interleaved(pcm@, len as nat);
        let total: usize = n * len;
        let mut i: usize = 0;
        assert(begun + want.take(0) =~= begun);
        while i < total
            invariant
                i <= total,
                n == pcm@.len(),
                n > 0,
                total == n * len,
                forall|c: int| 0 <= c < pcm@.len() ==> (#[trigger] pcm@[c])@.len() == len,
                want == interleaved(pcm@, len as nat),
                self.samples@ == begun + want.take(i as int),
                self.channels == old(self).channels,
                self.sample_rate_hz == old(self).sample_rate_hz,
            decreases total - i,
        {
            let c: usize = i % n;
            let k: usize = i / n;
            assert(k < len) by (nonlinear_arith)
                requires
                    i < n * len,
                    k == i as int / n as int,
                    n > 0,
            ;
            assert(pcm@[c as int]@.len() == len);
            self.samples.push(pcm[c][k]);
            i += 1;
            assert(self.samples@ =~= begun + want.take(i as int));
        }
        assert(want.take(total as int) =~= want);
    }
}

/// Interleaving the channels that were taken out of a stream gives the stream
/// back, padded with silence past its end.
pub proof fn law_interleaving(samples: Seq<i16>, start: int, pcm: Seq<Vec<i16>>, len: nat, i: int)
    requires
        pcm.len() > 0,
        forall|c: int, k: int|
            0 <= c < pcm.len() && 0 <= k < len ==> (#[trigger] pcm[c]@[k])
                == writing::sample_or_silence(samples, start + k * (pcm.len() as int) + c),
        0 <= i < pcm.len() * len,
    ensures
        interleaved(pcm, len)[i] == writing::sample_or_silence(samples, start + i),
{
    let n = pcm.len() as int;
    let c = i % n;
    let k = i / n;
    vstd::arithmetic::div_mod::lemma_fundamental_div_mod(i, n);
    assert(k < len) by (nonlinear_arith)
        requires
            i < n * len,
            k == i / n,
            n > 0,
    ;
    assert(0 <= k) by (nonlinear_arith)
        requires
            i >= 0,
            k == i / n,
            n > 0,
    ;
    assert(k * n == n * k) by (nonlinear_arith);
    assert(pcm[c]@[k] == writing::sample_or_silence(samples, start + k * n + c));
}

/// The samples of a stream of frames of `len` samples per channel.
pub open spec fn stream(frames: Seq<Seq<Vec<i16>>>, len: nat) -> Seq<i16>
    decreases frames.len(),
{
    if frames.len() == 0 {
        Seq::empty()
    } else {
        stream(frames.drop_last(), len) + interleaved(frames.last(), len)
    }
}

proof fn lemma_stream_len(frames: Seq<Seq<Vec<i16>>>, channels: nat, len: nat)
    requires
        forall|i: int| 0 <= i < frames.len() ==> (#[trigger] frames[i]).len() == channels,
    ensures
        stream(frames, len).len() == frames.len() * (channels * len),
    decreases frames.len(),
{
    if frames.len() > 0 {
        lemma_stream_len(frames.drop_last(), channels, len);
        assert(frames.last() == frames[frames.len() - 1]);
        assert((frames.len() - 1) * (channels * len) + channels * len == frames.len() * (channels
            * len)) by (nonlinear_arith);
    }
}

/// A stream that was put into a container comes out of it with its channel
/// count and its rate, and with as many samples as its frames have: 1024 for
/// each channel and frame.
pub proof fn law_decoded_stream(
    channels: u8,
    hz: u32,
    blocks: Seq<Seq<u8>>,
    frames: Seq<Seq<Vec<i16>>>,
)
    requires
        channels == 1 || channels == 2,
        hz == 44_100 || hz == 48_000,
        forall|i: int| 0 <= i < blocks.len() ==> (#[trigger] blocks[i]).len() <= u32::MAX,
        frames.len() == blocks.len(),
        forall|i: int| 0 <= i < frames.len() ==> (#[trigger] frames[i]).len() == channels,
    ensures
        ({
            let index = writing::rate_index(hz as int)->0;
            let bytes = writing::header(channels, index) + writing::frames(blocks, blocks.len());
            &&& header_of(bytes) == Ok::<ContainerHeader, ErrorView>(
                ContainerHeader { channels: channels as usize, sample_rate_hz: hz },
            )
            &&& frames_from(bytes, HEADER_LEN as int) == Ok::<Seq<Seq<u8>>, ErrorView>(blocks)
            &&& stream(frames, FRAME_LEN as nat).len() == blocks.len() * (channels as nat * 1024)
        }),
{
    law_container_roundtrip(channels, hz, blocks);
    lemma_stream_len(frames, channels as nat, FRAME_LEN as nat);
}

} // verus!
