//! The integer side of the AAC-LC encoder: configuration, band geometry, the
//! order in which short windows are coded, bit budgets, the frame held back by
//! the lookahead, and framing.

use crate::bits;
use crate::bitstream::{BitWriter, Cursor};
use crate::encoder::aac::bitstream as framing;
use crate::encoder::aac::bitstream::finalize_adts_frame;
use crate::encoder::aac::block_switch;
use crate::encoder::aac::block_switch::{BlockDecision, Transient, SUB_BLOCKS};
use crate::encoder::aac::huffman::{Codes, EncodeTables};
use crate::encoder::aac::ics;
use crate::encoder::aac::ics::{
    write_channel, write_channel_body, write_ics_info, ChannelCoding, Layout,
};
use crate::syntax::adif::{AdifHeader, AdifHeaderView};
use crate::syntax::asc::AudioSpecificConfig;
use crate::tables::scalefactor;
use crate::tables::scalefactor::{compute_sfb_offsets, get_sfb_table};
use crate::types::{
    AudioObjectType, ChannelConfiguration, FrameLength, SamplingRate, WindowSequence,
};
use vstd::prelude::*;

verus! {

/// Which container framing wraps each raw data block.
#[derive(Debug, Clone, Copy, PartialEq, Eq, Structural)]
pub enum OutputFormat {
    /// A self-framing header on every frame.
    Adts,
    /// One header before the very first frame, then bare raw data blocks. The
    /// first block is joined to the header bit for bit, since the header's own
    /// length is not generally a whole number of bytes.
    Adif,
}

impl Default for OutputFormat {
    fn default() -> (r: Self)
        ensures
            r == Self::Adts,
    {
        Self::Adts
    }
}

/// Encoder configuration.
#[derive(Debug, Clone, Copy, PartialEq, Eq, Structural)]
pub struct EncoderConfig {
    pub audio_object_type: AudioObjectType,
    pub sampling_rate: SamplingRate,
    pub channel_config: ChannelConfiguration,
    pub bitrate_bps: u32,
    pub frame_length: FrameLength,
    pub output_format: OutputFormat,
}

impl Default for EncoderConfig {
    fn default() -> (r: Self)
        ensures
            r == (EncoderConfig {
                audio_object_type: AudioObjectType::AacLc,
                sampling_rate: SamplingRate::Hz44100,
                channel_config: ChannelConfiguration::Stereo,
                bitrate_bps: 128_000,
                frame_length: FrameLength::Samples1024,
                output_format: OutputFormat::Adts,
            }),
    {
        EncoderConfig {
            audio_object_type: AudioObjectType::AacLc,
            sampling_rate: SamplingRate::Hz44100,
            channel_config: ChannelConfiguration::Stereo,
            bitrate_bps: 128_000,
            frame_length: FrameLength::Samples1024,
            output_format: OutputFormat::default(),
        }
    }
}

/// Bands the rate loop can work with at once.
pub const MAX_BANDS: usize = 64;

/// The most bands any long band table has.
pub const MAX_SFB_LONG: usize = 51;

/// Bands the four-bit `max_sfb` field can name for a short window.
pub const MAX_SHORT_BANDS: usize = 15;

pub open spec fn at_most(a: int, b: int) -> int {
    if a <= b {
        a
    } else {
        b
    }
}

/// The band tables of a configuration.
#[derive(Debug, Clone)]
pub struct Geometry {
    /// Cumulative band offsets for long windows, one more than there are bands.
    pub sfb_offsets: Vec<usize>,
    /// The same for one short window.
    pub short_offsets: Vec<usize>,
    /// Highest band the encoder codes with long windows.
    pub max_sfb: usize,
    /// The same for short windows.
    pub short_max_sfb: usize,
}

/// The cumulative offsets of a list of band widths.
pub open spec fn cumulative(widths: Seq<u8>) -> Seq<usize> {
    Seq::new(widths.len() + 1, |k: int| scalefactor::offset(widths, k) as usize)
}

fn offsets_of(widths: &[u8]) -> (r: Vec<usize>)
    requires
        widths@.len() <= MAX_SFB_LONG,
    ensures
        r@ == cumulative(widths@),
{
    let mut offsets: [usize; 52] = [0;52];
    proof {
        scalefactor::lemma_offset_grows(widths@, 0, widths@.len() as int);
    }
    let count: usize = compute_sfb_offsets(widths, &mut offsets);
    let mut out: Vec<usize> = Vec::new();
    let mut k: usize = 0;
    while k < count
        invariant
            k <= count,
            count == widths@.len() + 1,
            count <= 52,
            forall|j: int|
                0 <= j < count ==> #[trigger] offsets@[j] == scalefactor::offset(widths@, j),
            out@ == cumulative(widths@).take(k as int),
        decreases count - k,
    {
        assert(offsets@[k as int] == scalefactor::offset(widths@, k as int));
        out.push(offsets[k]);
        k += 1;
        assert(out@ =~= cumulative(widths@).take(k as int));
    }
    assert(cumulative(widths@).take(k as int) =~= cumulative(widths@));
    out
}

impl Geometry {
    /// The geometry belongs to the configuration.
    pub open spec fn is_of(self, config: EncoderConfig) -> bool {
        let long = scalefactor::sfb_table(config.sampling_rate, false, config.frame_length);
        let short = scalefactor::sfb_table(config.sampling_rate, true, config.frame_length);
        &&& self.sfb_offsets@ == cumulative(long)
        &&& self.short_offsets@ == cumulative(short)
        &&& self.max_sfb == long.len()
        &&& self.short_max_sfb == at_most(short.len() as int, MAX_SHORT_BANDS as int)
    }

    /// The band tables of a configuration: the whole long table is coded, and
    /// as much of the short one as its field can name.
    pub fn new(config: &EncoderConfig) -> (r: Self)
        ensures
            r.is_of(*config),
            r.max_sfb <= MAX_SFB_LONG,
    {
        let long: &[u8] = get_sfb_table(config.sampling_rate, false, config.frame_length);
        let short: &[u8] = get_sfb_table(config.sampling_rate, true, config.frame_length);
        let short_bands: usize = short.len();
        Geometry {
            sfb_offsets: offsets_of(long),
            short_offsets: offsets_of(short),
            max_sfb: long.len(),
            short_max_sfb: if short_bands <= MAX_SHORT_BANDS {
                short_bands
            } else {
                MAX_SHORT_BANDS
            },
        }
    }

    /// Bands one long window has.
    pub fn num_bands(&self) -> (r: usize)
        requires
            self.sfb_offsets@.len() >= 1,
        ensures
            r == self.sfb_offsets@.len() - 1,
    {
        self.sfb_offsets.len() - 1
    }

    /// Bands one short window has.
    pub fn short_bands(&self) -> (r: usize)
        requires
            self.short_offsets@.len() >= 1,
        ensures
            r == self.short_offsets@.len() - 1,
    {
        self.short_offsets.len() - 1
    }

    /// Both tables are in order, of moderate size, and hold the bands that are
    /// coded.
    pub open spec fn wf(self) -> bool {
        &&& self.max_sfb < self.sfb_offsets@.len()
        &&& self.short_max_sfb < self.short_offsets@.len()
        &&& self.short_max_sfb <= MAX_SHORT_BANDS
        &&& self.max_sfb <= MAX_BANDS
        &&& forall|k: int|
            0 <= k < self.short_offsets@.len() ==> #[trigger] self.short_offsets@[k] <= 0x10_0000
        &&& forall|j: int, k: int|
            0 <= j <= k < self.short_offsets@.len() ==> (#[trigger] self.short_offsets@[j]) <= (
            #[trigger] self.short_offsets@[k])
        &&& forall|k: int|
            0 <= k < self.sfb_offsets@.len() ==> #[trigger] self.sfb_offsets@[k] <= 0x10_0000
    }
}

/// The geometry of every configuration is well formed.
pub proof fn law_geometry(g: Geometry, config: EncoderConfig)
    requires
        g.is_of(config),
    ensures
        g.wf(),
{
    let long = scalefactor::sfb_table(config.sampling_rate, false, config.frame_length);
    let short = scalefactor::sfb_table(config.sampling_rate, true, config.frame_length);
    assert(long.len() <= 51 && short.len() <= 51);
    assert forall|j: int, k: int|
        0 <= j <= k < g.short_offsets@.len() implies (#[trigger] g.short_offsets@[j]) <= (
    #[trigger] g.short_offsets@[k]) by {
        scalefactor::lemma_offset_grows(short, j, k);
    }
    assert forall|k: int| 0 <= k < g.short_offsets@.len() implies #[trigger] g.short_offsets@[k]
        <= 0x10_0000 by {
        scalefactor::lemma_offset_grows(short, k, k);
    }
    assert forall|k: int| 0 <= k < g.sfb_offsets@.len() implies #[trigger] g.sfb_offsets@[k]
        <= 0x10_0000 by {
        scalefactor::lemma_offset_grows(long, k, k);
    }
}

/// Band `k` of the short coding table: the short table repeated once per
/// window group, each band widened to cover the group's windows.
pub open spec fn short_width(short_offsets: Seq<usize>, groups: Seq<usize>, m: int, k: int) -> int {
    (short_offsets[k % m + 1] - short_offsets[k % m]) * groups[k / m]
}

/// The offset of band `k` in the short coding table.
pub open spec fn short_offset(short_offsets: Seq<usize>, groups: Seq<usize>, m: int, k: int) -> int
    decreases k,
{
    if k <= 0 {
        0
    } else {
        short_offset(short_offsets, groups, m, k - 1) + short_width(
            short_offsets,
            groups,
            m,
            k - 1,
        )
    }
}

/// The bands of a frame with the given decision.
pub open spec fn coding_bands(g: Geometry, d: BlockDecision) -> int {
    if d.sequence == WindowSequence::EightShortSequence {
        at_most(g.short_max_sfb * d.group_count, MAX_BANDS as int)
    } else {
        at_most(g.sfb_offsets@.len() - 1, MAX_BANDS as int)
    }
}

/// The band table the rate loop works from, for a frame with the given
/// decision.
pub open spec fn coding_table(g: Geometry, d: BlockDecision) -> Seq<usize> {
    let n = coding_bands(g, d);
    if d.sequence == WindowSequence::EightShortSequence {
        Seq::new(
            (n + 1) as nat,
            |k: int|
                short_offset(
                    g.short_offsets@,
                    d.groups@,
                    g.short_max_sfb as int,
                    k,
                ) as usize,
        )
    } else {
        g.sfb_offsets@.take(n + 1)
    }
}

/// Builds the band table the masking model and the rate loop work from.
///
/// For a long frame that is just the band table. For an eight-short frame it
/// is the short table repeated once per window group, each band widened to
/// cover the group's windows.
pub fn build_coding_table(g: &Geometry, d: &BlockDecision) -> (r: Vec<usize>)
    requires
        g.wf(),
        d.fits(),
        forall|k: int| 0 <= k < SUB_BLOCKS ==> #[trigger] d.groups@[k] <= SUB_BLOCKS,
    ensures
        r@ == coding_table(*g, *d),
        r@.len() == coding_bands(*g, *d) + 1,
{
    let mut out: Vec<usize> = Vec::new();
    if d.sequence != WindowSequence::EightShortSequence {
        let bands: usize = g.sfb_offsets.len() - 1;
        let n: usize = if bands <= MAX_BANDS {
            bands
        } else {
            MAX_BANDS
        };
        let mut k: usize = 0;
        while k <= n
            invariant
                k <= n + 1,
                n < g.sfb_offsets@.len(),
                n <= MAX_BANDS,
                out@ == g.sfb_offsets@.take(k as int),
            decreases n + 1 - k,
        {
            out.push(g.sfb_offsets[k]);
            k += 1;
            assert(out@ =~= g.sfb_offsets@.take(k as int));
        }
        return out;
    }
    let m: usize = g.short_max_sfb;
    proof {
        assert(m * d.group_count <= 15 * 8) by (nonlinear_arith)
            requires
                m <= 15,
                d.group_count <= 8,
        ;
    }
    let all: usize = m * d.group_count;
    let n: usize = if all <= MAX_BANDS {
        all
    } else {
        MAX_BANDS
    };
    let ghost want = coding_table(*g, *d);
    let ghost so = g.short_offsets@;
    let ghost gs = d.groups@;
    out.push(0);
    assert(out@ =~= want.take(1));
    let mut at: usize = 0;
    let mut k: usize = 0;
    while k < n
        invariant
            k <= n <= MAX_BANDS,
            n <= m * d.group_count,
            m <= 15,
            m == g.short_max_sfb,
            d.group_count <= 8,
            g.wf(),
            forall|k: int| 0 <= k < SUB_BLOCKS ==> #[trigger] d.groups@[k] <= SUB_BLOCKS,
            so == g.short_offsets@,
            gs == d.groups@,
            want == coding_table(*g, *d),
            want.len() == n + 1,
            d.sequence == WindowSequence::EightShortSequence,
            at == short_offset(so, gs, m as int, k as int),
            at <= 0x100_0000 * k,
            out@ == want.take(k + 1),
        decreases n - k,
    {
        proof {
            assert(m > 0) by (nonlinear_arith)
                requires
                    k < m * d.group_count,
                    k >= 0,
                    m >= 0,
            ;
            assert(k / m < d.group_count) by (nonlinear_arith)
                requires
                    k < m * d.group_count,
                    m > 0,
                    k >= 0,
            ;
        }
        let group: usize = k / m;
        let sfb: usize = k % m;
        let length: usize = d.groups[group];
        assert(d.groups@[group as int] <= 8);
        assert(so[sfb as int] <= so[sfb + 1]);
        assert(so[sfb + 1] <= 0x10_0000);
        let width: usize = g.short_offsets[sfb + 1] - g.short_offsets[sfb];
        assert(width * length <= 0x10_0000 * 8) by (nonlinear_arith)
            requires
                width <= 0x10_0000,
                length <= 8,
        ;
        at = at + width * length;
        k += 1;
        out.push(at);
        assert(out@ =~= want.take(k + 1));
    }
    assert(want.take(n + 1) =~= want);
    out
}

proof fn lemma_cumulative_step(widths: Seq<u8>, k: int)
    requires
        0 <= k < widths.len() <= MAX_SFB_LONG,
    ensures
        cumulative(widths)[k + 1] - cumulative(widths)[k] == widths[k],
        cumulative(widths)[k + 1] <= 0x10_0000,
{
    scalefactor::lemma_offset_grows(widths, k, k + 1);
}

/// A band of the short coding table is a band of a short window, widened.
proof fn lemma_short_width(g: Geometry, config: EncoderConfig, d: BlockDecision, k: int)
    requires
        g.is_of(config),
        d.is_complete(),
        d.sequence == WindowSequence::EightShortSequence,
        0 <= k < coding_bands(g, d),
    ensures
        ({
            let w = short_width(g.short_offsets@, d.groups@, g.short_max_sfb as int, k);
            0 < w <= 0x100_0000 && w % 4 == 0
        }),
{
    let short = scalefactor::sfb_table(config.sampling_rate, true, config.frame_length);
    let m = g.short_max_sfb as int;
    let count = d.group_count as int;
    assert(m > 0 && 0 <= k / m < count && 0 <= k % m < m) by (nonlinear_arith)
        requires
            0 <= k < m * count,
            m >= 0,
            count > 0,
    ;
    let j = k % m;
    scalefactor::law_bands_divide_into_tuples(config.sampling_rate, true, config.frame_length, j);
    lemma_cumulative_step(short, j);
    let w = short[j] as int;
    let windows = d.groups@[k / m] as int;
    assert(0 < w * windows <= 0x100_0000 && (w * windows) % 4 == 0) by (nonlinear_arith)
        requires
            0 < w <= 255,
            w % 4 == 0,
            1 <= windows <= 8,
    {
        assert(w * windows == 4 * ((w / 4) * windows));
    }
}

proof fn lemma_short_offset(g: Geometry, config: EncoderConfig, d: BlockDecision, k: int)
    requires
        g.is_of(config),
        d.is_complete(),
        d.sequence == WindowSequence::EightShortSequence,
        0 <= k <= coding_bands(g, d),
    ensures
        0 <= short_offset(g.short_offsets@, d.groups@, g.short_max_sfb as int, k) <= 0x100_0000 * k,
    decreases k,
{
    if k > 0 {
        lemma_short_offset(g, config, d, k - 1);
        lemma_short_width(g, config, d, k - 1);
    }
}

/// Every band that the rate loop works on divides into tuples of four lines.
pub proof fn law_coding_bands_divide_into_tuples(
    g: Geometry,
    config: EncoderConfig,
    d: BlockDecision,
    k: int,
)
    requires
        g.is_of(config),
        d.is_complete(),
        0 <= k < coding_bands(g, d),
    ensures
        coding_table(g, d)[k] < coding_table(g, d)[k + 1],
        (coding_table(g, d)[k + 1] - coding_table(g, d)[k]) % 4 == 0,
{
    if d.sequence == WindowSequence::EightShortSequence {
        lemma_short_offset(g, config, d, k);
        lemma_short_offset(g, config, d, k + 1);
        lemma_short_width(g, config, d, k);
    } else {
        let long = scalefactor::sfb_table(config.sampling_rate, false, config.frame_length);
        scalefactor::law_bands_divide_into_tuples(
            config.sampling_rate,
            false,
            config.frame_length,
            k,
        );
        lemma_cumulative_step(long, k);
    }
}

/// Where the lines of one band of the windows `first` to `first + n` of a
/// group stand in the spectrum, window after window.
pub open spec fn band_sources(short_n: int, first: int, lo: int, hi: int, n: nat) -> Seq<usize>
    decreases n,
{
    if n == 0 {
        Seq::empty()
    } else {
        band_sources(short_n, first, lo, hi, (n - 1) as nat) + Seq::new(
            (hi - lo) as nat,
            |i: int| ((first + n - 1) * short_n + lo + i) as usize,
        )
    }
}

/// Where the lines of the first `m` bands of a group stand, band after band.
pub open spec fn group_sources(
    offsets: Seq<usize>,
    short_n: int,
    first: int,
    length: nat,
    m: nat,
) -> Seq<usize>
    decreases m,
{
    if m == 0 {
        Seq::empty()
    } else {
        group_sources(offsets, short_n, first, length, (m - 1) as nat) + band_sources(
            short_n,
            first,
            offsets[m - 1] as int,
            offsets[m as int] as int,
            length,
        )
    }
}

/// Where the lines of the first `n` groups stand, group after group.
pub open spec fn frame_sources(
    offsets: Seq<usize>,
    short_n: int,
    groups: Seq<usize>,
    m: nat,
    n: nat,
) -> Seq<usize>
    decreases n,
{
    if n == 0 {
        Seq::empty()
    } else {
        frame_sources(offsets, short_n, groups, m, (n - 1) as nat) + group_sources(
            offsets,
            short_n,
            block_switch::windows_in(groups, n - 1),
            groups[n - 1] as nat,
            m,
        )
    }
}

/// The order in which a frame's lines are coded, as places in its spectrum. A
/// long frame is coded as it stands; the short windows of a group are
/// interleaved band by band.
pub open spec fn coding_order(g: Geometry, d: BlockDecision, n: nat) -> Seq<usize> {
    if d.sequence == WindowSequence::EightShortSequence {
        frame_sources(
            g.short_offsets@,
            n as int / 8,
            d.groups@,
            g.short_max_sfb as nat,
            d.group_count as nat,
        )
    } else {
        Seq::new(n, |i: int| i as usize)
    }
}

fn push_run(out: &mut Vec<usize>, from: usize, len: usize)
    requires
        from + len <= usize::MAX,
    ensures
        final(out)@ == old(out)@ + Seq::new(len as nat, |i: int| (from + i) as usize),
{
    let ghost start = out@;
    let mut i: usize = 0;
    assert(start + Seq::new(0, |i: int| (from + i) as usize) =~= start);
    while i < len
        invariant
            i <= len,
            from + len <= usize::MAX,
            out@ == start + Seq::new(i as nat, |i: int| (from + i) as usize),
        decreases len - i,
    {
        out.push(from + i);
        i += 1;
        assert(out@ =~= start + Seq::new(i as nat, |i: int| (from + i) as usize));
    }
}

/// The order in which a frame's lines are coded.
pub fn grouped_order(g: &Geometry, d: &BlockDecision, n: usize) -> (r: Vec<usize>)
    requires
        g.wf(),
        d.fits(),
        n <= 0x100_0000,
    ensures
        r@ == coding_order(*g, *d, n as nat),
{
    let mut out: Vec<usize> = Vec::new();
    if d.sequence != WindowSequence::EightShortSequence {
        push_run(&mut out, 0, n);
        assert(out@ =~= coding_order(*g, *d, n as nat));
        return out;
    }
    let short_n: usize = n / 8;
    let m: usize = g.short_max_sfb;
    let ghost so = g.short_offsets@;
    let ghost gs = d.groups@;
    let mut window: usize = 0;
    let mut k: usize = 0;
    while k < d.group_count
        invariant
            k <= d.group_count <= 8,
            short_n <= 0x20_0000,
            m == g.short_max_sfb,
            g.wf(),
            d.fits(),
            so == g.short_offsets@,
            gs == d.groups@,
            window == block_switch::windows_in(gs, k as int),
            out@ == frame_sources(so, short_n as int, gs, m as nat, k as nat),
        decreases d.group_count - k,
    {
        let length: usize = d.groups[k];
        proof {
            lemma_windows_bound(gs, k + 1, d.group_count as int);
        }
        let ghost before = out@;
        let mut sfb: usize = 0;
        assert(before + Seq::<usize>::empty() =~= before);
        while sfb < m
            invariant
                sfb <= m,
                m == g.short_max_sfb,
                g.wf(),
                so == g.short_offsets@,
                short_n <= 0x20_0000,
                window + length <= 8,
                out@ == before + group_sources(
                    so,
                    short_n as int,
                    window as int,
                    length as nat,
                    sfb as nat,
                ),
            decreases m - sfb,
        {
            let lo: usize = g.short_offsets[sfb];
            let hi: usize = g.short_offsets[sfb + 1];
            assert(so[sfb as int] <= so[sfb + 1]);
            assert(so[sfb + 1] <= 0x10_0000);
            let ghost so_far = out@;
            let mut w: usize = 0;
            assert(so_far + Seq::<usize>::empty() =~= so_far);
            while w < length
                invariant
                    w <= length,
                    window + length <= 8,
                    lo <= hi <= 0x10_0000,
                    short_n <= 0x20_0000,
                    out@ == so_far + band_sources(
                        short_n as int,
                        window as int,
                        lo as int,
                        hi as int,
                        w as nat,
                    ),
                decreases length - w,
            {
                assert(0 <= (window + w) * short_n <= 8 * 0x20_0000) by (nonlinear_arith)
                    requires
                        window + w <= 8,
                        window >= 0,
                        w >= 0,
                        0 <= short_n <= 0x20_0000,
                ;
                let ghost earlier = out@;
                push_run(&mut out, (window + w) * short_n + lo, hi - lo);
                w += 1;
                proof {
                    let here = Seq::new(
                        (hi - lo) as nat,
                        |i: int| ((window + w - 1) * short_n + lo + i) as usize,
                    );
                    assert(out@ =~= earlier + here);
                    assert(out@ =~= so_far + band_sources(
                        short_n as int,
                        window as int,
                        lo as int,
                        hi as int,
                        w as nat,
                    ));
                }
            }
            sfb += 1;
            assert(out@ =~= before + group_sources(
                so,
                short_n as int,
                window as int,
                length as nat,
                sfb as nat,
            ));
        }
        window = window + length;
        k += 1;
    }
    out
}

pub(crate) proof fn lemma_windows_bound(groups: Seq<usize>, k: int, n: int)
    requires
        0 <= k <= n <= groups.len(),
    ensures
        0 <= block_switch::windows_in(groups, k) <= block_switch::windows_in(groups, n),
    decreases n,
{
    if k < n {
        lemma_windows_bound(groups, k, n - 1);
    } else if n > 0 {
        lemma_windows_bound(groups, n - 1, n - 1);
    }
}

proof fn lemma_band_sources_contain(
    short_n: int,
    first: int,
    lo: int,
    hi: int,
    n: nat,
    w: int,
    line: int,
)
    requires
        0 <= w < n,
        lo <= line < hi,
    ensures
        band_sources(short_n, first, lo, hi, n).contains(((first + w) * short_n + line) as usize),
    decreases n,
{
    let before = band_sources(short_n, first, lo, hi, (n - 1) as nat);
    let here = Seq::new(
        (hi - lo) as nat,
        |i: int| ((first + n - 1) * short_n + lo + i) as usize,
    );
    let value = ((first + w) * short_n + line) as usize;
    if w == n - 1 {
        assert(here[line - lo] == value);
        assert((before + here)[before.len() + (line - lo)] == value);
    } else {
        lemma_band_sources_contain(short_n, first, lo, hi, (n - 1) as nat, w, line);
        let i = choose|i: int| 0 <= i < before.len() && before[i] == value;
        assert((before + here)[i] == value);
    }
}

proof fn lemma_group_sources_contain(
    offsets: Seq<usize>,
    short_n: int,
    first: int,
    length: nat,
    m: nat,
    w: int,
    line: int,
)
    requires
        m < offsets.len(),
        0 <= w < length,
        offsets[0] <= line < offsets[m as int],
    ensures
        group_sources(offsets, short_n, first, length, m).contains(
            ((first + w) * short_n + line) as usize,
        ),
    decreases m,
{
    let value = ((first + w) * short_n + line) as usize;
    if m > 0 {
        let before = group_sources(offsets, short_n, first, length, (m - 1) as nat);
        let here = band_sources(
            short_n,
            first,
            offsets[m - 1] as int,
            offsets[m as int] as int,
            length,
        );
        if line >= offsets[m - 1] {
            lemma_band_sources_contain(
                short_n,
                first,
                offsets[m - 1] as int,
                offsets[m as int] as int,
                length,
                w,
                line,
            );
            let i = choose|i: int| 0 <= i < here.len() && here[i] == value;
            assert((before + here)[before.len() + i] == value);
        } else {
            lemma_group_sources_contain(
                offsets,
                short_n,
                first,
                length,
                (m - 1) as nat,
                w,
                line,
            );
            let i = choose|i: int| 0 <= i < before.len() && before[i] == value;
            assert((before + here)[i] == value);
        }
    }
}

/// Every line of every window that the groups and the coded bands cover has
/// its place in the coding order.
pub proof fn law_coding_order_covers(
    offsets: Seq<usize>,
    short_n: int,
    groups: Seq<usize>,
    m: nat,
    n: nat,
    window: int,
    line: int,
)
    requires
        m < offsets.len(),
        n <= groups.len(),
        0 <= window < block_switch::windows_in(groups, n as int),
        offsets[0] <= line < offsets[m as int],
    ensures
        frame_sources(offsets, short_n, groups, m, n).contains((window * short_n + line) as usize),
    decreases n,
{
    let value = (window * short_n + line) as usize;
    if n > 0 {
        let first = block_switch::windows_in(groups, n - 1);
        let before = frame_sources(offsets, short_n, groups, m, (n - 1) as nat);
        let here = group_sources(offsets, short_n, first, groups[n - 1] as nat, m);
        if window >= first {
            lemma_group_sources_contain(
                offsets,
                short_n,
                first,
                groups[n - 1] as nat,
                m,
                window - first,
                line,
            );
            let i = choose|i: int| 0 <= i < here.len() && here[i] == value;
            assert((before + here)[before.len() + i] == value);
        } else {
            law_coding_order_covers(offsets, short_n, groups, m, (n - 1) as nat, window, line);
            let i = choose|i: int| 0 <= i < before.len() && before[i] == value;
            assert((before + here)[i] == value);
        }
    }
}

/// The bits of a frame that are not payload: the transport header, the element
/// identifier and tag, the window description, the mid/side mask, one gain per
/// channel, and the terminator.
pub open spec fn overhead(short: bool, mask: int, channels: int) -> int {
    let ics_info = if short {
        15int
    } else {
        11
    };
    let element = if channels >= 2 {
        10 + ics_info + mask
    } else {
        0
    };
    let per_channel = if channels >= 2 {
        8
    } else {
        15 + ics_info
    };
    59 + element + per_channel * channels
}

/// Bits the frame's payload may use, after the headers it has to carry.
/// `mask` is the number of bands of the mid/side mask, zero if none is sent.
pub fn payload_budget(
    frame_bits: usize,
    short: bool,
    mask: usize,
    channels: usize,
) -> (r: usize)
    requires
        mask <= 0x10_0000,
        channels <= 0x10_0000,
    ensures
        r == if overhead(short, mask as int, channels as int) <= frame_bits {
            frame_bits - overhead(short, mask as int, channels as int)
        } else {
            0
        },
{
    let ics_info: usize = if short {
        1 + 2 + 1 + 4 + 7
    } else {
        1 + 2 + 1 + 6 + 1
    };
    let element: usize = if channels >= 2 {
        3 + 4 + 1 + ics_info + 2 + mask
    } else {
        0
    };
    let per_channel: usize = if channels >= 2 {
        8
    } else {
        3 + 4 + 8 + ics_info
    };
    let all: usize = if channels >= 2 {
        8 * channels
    } else if channels == 1 {
        per_channel
    } else {
        0
    };
    assert(all == per_channel * channels) by (nonlinear_arith)
        requires
            channels >= 2 ==> per_channel == 8 && all == 8 * channels,
            channels == 1 ==> all == per_channel,
            channels == 0 ==> all == 0,
    ;
    let taken: usize = 56 + 3 + element + all;
    if taken <= frame_bits {
        frame_bits - taken
    } else {
        0
    }
}

/// The sum of the first `n` elements.
pub open spec fn total(s: Seq<usize>, n: int) -> int
    decreases n,
{
    if n <= 0 {
        0
    } else {
        total(s, n - 1) + s[n - 1]
    }
}

/// Whether a channel used up its share, to within eight bits.
pub open spec fn is_hungry(used: usize, budget: usize) -> bool {
    used + 8 >= budget
}

/// The last of the first `n` channels that used up their share and want more
/// than any other.
pub open spec fn hungriest(
    used: Seq<usize>,
    budgets: Seq<usize>,
    demand: Seq<u32>,
    n: int,
) -> Option<int>
    decreases n,
{
    if n <= 0 {
        None
    } else {
        let before = hungriest(used, budgets, demand, n - 1);
        if !is_hungry(used[n - 1], budgets[n - 1]) {
            before
        } else {
            match before {
                Some(c) => if demand[c] > demand[n - 1] {
                    before
                } else {
                    Some(n - 1)
                },
                None => Some(n - 1),
            }
        }
    }
}

proof fn lemma_hungriest_bound(
    used: Seq<usize>,
    budgets: Seq<usize>,
    demand: Seq<u32>,
    n: int,
)
    ensures
        hungriest(used, budgets, demand, n) matches Some(c) ==> 0 <= c < n,
    decreases n,
{
    if n > 0 {
        lemma_hungriest_bound(used, budgets, demand, n - 1);
    }
}

proof fn lemma_total_grows(s: Seq<usize>, n: int, more: int)
    requires
        0 <= n <= more <= s.len(),
    ensures
        0 <= total(s, n) <= total(s, more),
    decreases more,
{
    if n < more {
        lemma_total_grows(s, n, more - 1);
    } else if n > 0 {
        lemma_total_grows(s, n - 1, n - 1);
    }
}

/// The channel that gets the bits the others left unspent, and how many there
/// are. None if less than a thirty-second of the budget is left, or if no
/// channel used up its share. `demand` orders the channels by how much they
/// want.
pub fn next_share(
    used: &[usize],
    budgets: &[usize],
    demand: &[u32],
    budget: usize,
) -> (r: Option<(usize, usize)>)
    requires
        used@.len() == budgets@.len(),
        used@.len() == demand@.len(),
        total(used@, used@.len() as int) + budget / 32 <= usize::MAX,
        forall|c: int| 0 <= c < used@.len() ==> #[trigger] used@[c] <= usize::MAX - 8,
    ensures
        ({
            let spent = total(used@, used@.len() as int);
            if spent + budget / 32 >= budget {
                r is None
            } else {
                match hungriest(used@, budgets@, demand@, used@.len() as int) {
                    Some(c) => r is Some && (r->0).0 == c && (r->0).1 == budget - spent,
                    None => r is None,
                }
            }
        }),
{
    let n: usize = used.len();
    let mut spent: usize = 0;
    let mut best: Option<usize> = None;
    let mut c: usize = 0;
    while c < n
        invariant
            c <= n,
            n == used@.len(),
            used@.len() == budgets@.len(),
            used@.len() == demand@.len(),
            total(used@, n as int) <= usize::MAX,
            forall|c: int| 0 <= c < used@.len() ==> #[trigger] used@[c] <= usize::MAX - 8,
            spent == total(used@, c as int),
            match hungriest(used@, budgets@, demand@, c as int) {
                Some(h) => best is Some && best->0 == h && h < c,
                None => best is None,
            },
        decreases n - c,
    {
        proof {
            lemma_total_grows(used@, c + 1, n as int);
            lemma_hungriest_bound(used@, budgets@, demand@, c as int);
        }
        spent = spent + used[c];
        assert(used@[c as int] <= usize::MAX - 8);
        if used[c] + 8 >= budgets[c] {
            best = match best {
                Some(h) => if demand[h] > demand[c] {
                    Some(h)
                } else {
                    Some(c)
                },
                None => Some(c),
            };
        }
        c += 1;
    }
    if spent + budget / 32 >= budget {
        return None;
    }
    match best {
        Some(h) => Some((h, budget - spent)),
        None => None,
    }
}

/// The frame held back so that the detector can see one frame further than
/// the encoder codes, and what it found there.
pub struct Lookahead<F> {
    pending: Option<(F, Transient)>,
}

impl<F> View for Lookahead<F> {
    type V = Option<(F, Transient)>;

    closed spec fn view(&self) -> Option<(F, Transient)> {
        self.pending
    }
}

/// The frame that is held back, if any, with what was found in it and what was
/// found in its successor.
pub open spec fn given_out<F>(held: Option<(F, Transient)>, next: Transient) -> Option<
    (F, Transient, Transient),
> {
    match held {
        Some((f, here)) => Some((f, here, next)),
        None => None,
    }
}

/// What is held back after frames have been pushed one by one, and what each
/// push gave out.
pub open spec fn pushed<F>(frames: Seq<(F, Transient)>) -> (
    Option<(F, Transient)>,
    Seq<Option<(F, Transient, Transient)>>,
)
    decreases frames.len(),
{
    if frames.len() == 0 {
        (None, Seq::empty())
    } else {
        let (held, out) = pushed(frames.drop_last());
        let (frame, found) = frames.last();
        (Some((frame, found)), out.push(given_out(held, found)))
    }
}

/// Every frame comes out once and in order: of all pushes only the first gives
/// nothing out, each later one gives out the frame before it, and what is held
/// back in the end is the last frame.
pub proof fn law_frames_come_out_in_order<F>(frames: Seq<(F, Transient)>, i: int)
    requires
        0 <= i < frames.len(),
    ensures
        ({
            let (held, out) = pushed(frames);
            &&& out.len() == frames.len()
            &&& held == Some(frames.last())
            &&& out[i] == if i == 0 {
                None
            } else {
                Some((frames[i - 1].0, frames[i - 1].1, frames[i].1))
            }
        }),
    decreases frames.len(),
{
    let before = frames.drop_last();
    if i < before.len() {
        law_frames_come_out_in_order(before, i);
    } else if before.len() > 0 {
        law_frames_come_out_in_order(before, i - 1);
    }
}

impl<F> Lookahead<F> {
    /// Nothing is held back.
    pub fn new() -> (r: Self)
        ensures
            r@ is None,
    {
        Lookahead { pending: None }
    }

    /// Holds a frame back and gives out the one held back before, with what
    /// was found in it and in its successor.
    pub fn push(&mut self, frame: F, found: Transient) -> (r: Option<(F, Transient, Transient)>)
        ensures
            final(self)@ == Some((frame, found)),
            r == given_out(old(self)@, found),
    {
        let mut held: Option<(F, Transient)> = Some((frame, found));
        std::mem::swap(&mut held, &mut self.pending);
        match held {
            Some((f, here)) => Some((f, here, found)),
            None => None,
        }
    }

    /// Gives out the frame that is held back, as one that nothing follows.
    pub fn flush(&mut self) -> (r: Option<(F, Transient, Transient)>)
        ensures
            final(self)@ is None,
            r == given_out(old(self)@, Transient { attack: false, sub_block: 0 }),
    {
        let mut held: Option<(F, Transient)> = None;
        std::mem::swap(&mut held, &mut self.pending);
        match held {
            Some((f, here)) => Some((f, here, Transient { attack: false, sub_block: 0 })),
            None => None,
        }
    }

    /// Forgets the frame that is held back.
    pub fn reset(&mut self)
        ensures
            final(self)@ is None,
    {
        self.pending = None;
    }
}

/// The window layout of a frame with the given decision.
pub open spec fn frame_layout(g: Geometry, d: BlockDecision) -> Layout {
    if d.sequence == WindowSequence::EightShortSequence {
        Layout {
            sequence: d.sequence,
            max_sfb: g.short_max_sfb,
            group_count: d.group_count,
            grouping_bits: bits::value(
                block_switch::grouping_field(d.groups@, d.group_count as int),
            ) as u8,
            num_swb: (g.short_offsets@.len() - 1) as usize,
        }
    } else {
        Layout {
            sequence: d.sequence,
            max_sfb: g.max_sfb,
            group_count: d.group_count,
            grouping_bits: 0,
            num_swb: (g.sfb_offsets@.len() - 1) as usize,
        }
    }
}

/// The window layout the bitstream has to describe.
pub fn layout_of(g: &Geometry, d: &BlockDecision) -> (r: Layout)
    requires
        g.sfb_offsets@.len() >= 1,
        g.short_offsets@.len() >= 1,
        d.sequence == WindowSequence::EightShortSequence ==> d.fits(),
    ensures
        r == frame_layout(*g, *d),
{
    let short: bool = d.sequence == WindowSequence::EightShortSequence;
    Layout {
        sequence: d.sequence,
        max_sfb: if short {
            g.short_max_sfb
        } else {
            g.max_sfb
        },
        group_count: d.group_count,
        grouping_bits: d.grouping_bits(),
        num_swb: if short {
            g.short_bands()
        } else {
            g.num_bands()
        },
    }
}

/// A channel element of its own, with tag zero.
pub open spec fn single(codes: Codes, ch: ChannelCoding, offsets: Seq<usize>, layout: Layout) -> Seq<
    bool,
> {
    bits::field(0, 3, bits::field(0, 4, ch.stream(codes, offsets, layout)))
}

/// The mid/side mask of a pair, before `rest`: one bit for each band, or none
/// at all.
pub open spec fn mask_field(mask: Option<Seq<bool>>, bands: int, rest: Seq<bool>) -> Seq<bool> {
    match mask {
        Some(m) => bits::field(1, 2, m.take(bands) + rest),
        None => bits::field(0, 2, rest),
    }
}

/// A pair of channels that share their window description, with tag zero.
pub open spec fn pair(
    codes: Codes,
    left: ChannelCoding,
    right: ChannelCoding,
    offsets: Seq<usize>,
    layout: Layout,
    mask: Option<Seq<bool>>,
) -> Seq<bool> {
    let bodies = left.body(codes, offsets, layout) + right.body(codes, offsets, layout);
    bits::field(
        1,
        3,
        bits::field(
            0,
            4,
            bits::flag(
                true,
                ics::ics_info(layout, mask_field(mask, layout.bands() as int, bodies)),
            ),
        ),
    )
}

/// The elements of the first `n` channels: one on its own, or a pair and the
/// rest on their own.
pub open spec fn elements(
    codes: Codes,
    channels: Seq<ChannelCoding>,
    offsets: Seq<usize>,
    layout: Layout,
    mask: Option<Seq<bool>>,
    n: nat,
) -> Seq<bool>
    decreases n,
{
    if n <= 1 {
        single(codes, channels[0], offsets, layout)
    } else if n == 2 {
        pair(codes, channels[0], channels[1], offsets, layout, mask)
    } else {
        elements(codes, channels, offsets, layout, mask, (n - 1) as nat) + single(
            codes,
            channels[n - 1],
            offsets,
            layout,
        )
    }
}

/// A raw data block: the elements, the terminator, and zero bits up to a whole
/// number of bytes.
pub open spec fn raw_block(
    codes: Codes,
    channels: Seq<ChannelCoding>,
    offsets: Seq<usize>,
    layout: Layout,
    mask: Option<Seq<bool>>,
) -> Seq<bool> {
    bits::padded(
        elements(codes, channels, offsets, layout, mask, channels.len()) + bits::uint(7, 3),
    )
}

fn write_single(
    writer: &mut BitWriter,
    tables: &EncodeTables,
    channel: &ChannelCoding,
    offsets: &[usize],
    layout: &Layout,
)
    requires
        channel.wf(offsets@, *layout),
    ensures
        final(writer)@ == old(writer)@ + single(tables@, *channel, offsets@, *layout),
{
    let ghost w0 = writer@;
    writer.write_u8(0, 3);
    let ghost w1 = writer@;
    writer.write_u8(0, 4);
    write_channel(writer, tables, channel, offsets, layout);
    proof {
        let stream = channel.stream(tables@, offsets@, *layout);
        bits::lemma_append_field(w1, 0, 4, stream);
        bits::lemma_append_field(w0, 0, 3, bits::field(0, 4, stream));
    }
}

fn write_mask(writer: &mut BitWriter, mask: Option<&[bool]>, bands: usize)
    requires
        mask matches Some(m) ==> bands <= m@.len(),
    ensures
        forall|rest: Seq<bool>|
            #[trigger] (final(writer)@ + rest) == old(writer)@ + mask_field(
                match mask {
                    Some(m) => Some(m@),
                    None => None,
                },
                bands as int,
                rest,
            ),
{
    let ghost w0 = writer@;
    match mask {
        Some(m) => {
            writer.write_u8(1, 2);  // ms_mask_present: per band
            let ghost w1 = writer@;
            let mut b: usize = 0;
            assert(w1 + m@.take(0) =~= w1);
            while b < bands
                invariant
                    b <= bands <= m@.len(),
                    writer@ == w1 + m@.take(b as int),
                decreases bands - b,
            {
                writer.write_bit(m[b]);
                b += 1;
                assert(writer@ =~= w1 + m@.take(b as int));
            }
            proof {
                assert forall|rest: Seq<bool>|
                    #[trigger] (writer@ + rest) == w0 + mask_field(Some(m@), bands as int, rest) by {
                    let ms = m@.take(bands as int);
                    assert((w1 + ms) + rest =~= w1 + (ms + rest));
                    bits::lemma_append_field(w0, 1, 2, ms + rest);
                }
            }
        },
        None => {
            writer.write_u8(0, 2);  // ms_mask_present: none
            proof {
                assert forall|rest: Seq<bool>|
                    #[trigger] (writer@ + rest) == w0 + mask_field(None, bands as int, rest) by {
                    bits::lemma_append_field(w0, 0, 2, rest);
                }
            }
        },
    }
}

fn write_pair(
    writer: &mut BitWriter,
    tables: &EncodeTables,
    left: &ChannelCoding,
    right: &ChannelCoding,
    offsets: &[usize],
    layout: &Layout,
    mask: Option<&[bool]>,
)
    requires
        left.wf(offsets@, *layout),
        right.wf(offsets@, *layout),
        mask matches Some(m) ==> layout.bands() <= m@.len(),
    ensures
        final(writer)@ == old(writer)@ + pair(
            tables@,
            *left,
            *right,
            offsets@,
            *layout,
            match mask {
                Some(m) => Some(m@),
                None => None,
            },
        ),
{
    let ghost w0 = writer@;
    assert(offsets.len() == offsets@.len());
    writer.write_u8(1, 3);
    let ghost w1 = writer@;
    writer.write_u8(0, 4);
    let ghost w2 = writer@;
    writer.write_bit(true);  // common_window
    let ghost w3 = writer@;
    write_ics_info(writer, layout);
    let ghost w4 = writer@;
    write_mask(writer, mask, layout.coded_bands());
    let ghost w5 = writer@;
    write_channel_body(writer, tables, left, offsets, layout);
    write_channel_body(writer, tables, right, offsets, layout);
    proof {
        let l = left.body(tables@, offsets@, *layout);
        let r = right.body(tables@, offsets@, *layout);
        let m = match mask {
            Some(m) => Some(m@),
            None => None,
        };
        assert((w5 + l) + r =~= w5 + (l + r));
        let r4 = mask_field(m, layout.bands() as int, l + r);
        assert(w5 + (l + r) == w4 + r4);
        let r3 = ics::ics_info(*layout, r4);
        assert(w4 + r4 == w3 + r3);
        bits::lemma_append_flag(w2, true, r3);
        bits::lemma_append_field(w1, 0, 4, bits::flag(true, r3));
        bits::lemma_append_field(w0, 1, 3, bits::field(0, 4, bits::flag(true, r3)));
    }
}

/// Writes the raw data block of a frame.
fn write_raw_block(
    tables: &EncodeTables,
    channels: &Vec<ChannelCoding>,
    offsets: &[usize],
    layout: &Layout,
    mask: Option<&[bool]>,
) -> (r: Vec<u8>)
    requires
        channels@.len() >= 1,
        forall|c: int| 0 <= c < channels@.len() ==> (#[trigger] channels@[c]).wf(offsets@, *layout),
        mask matches Some(m) ==> layout.bands() <= m@.len(),
    ensures
        bits::bytes(r@) == raw_block(
            tables@,
            channels@,
            offsets@,
            *layout,
            match mask {
                Some(m) => Some(m@),
                None => None,
            },
        ),
{
    let ghost m = match mask {
        Some(m) => Some(m@),
        None => None,
    };
    let mut writer = BitWriter::with_capacity(4096);
    let n: usize = channels.len();
    assert(channels@[0].wf(offsets@, *layout));
    let mut k: usize = 1;
    if n == 1 {
        write_single(&mut writer, tables, &channels[0], offsets, layout);
        assert(writer@ =~= elements(tables@, channels@, offsets@, *layout, m, 1));
    } else {
        assert(channels@[1].wf(offsets@, *layout));
        write_pair(&mut writer, tables, &channels[0], &channels[1], offsets, layout, mask);
        assert(writer@ =~= elements(tables@, channels@, offsets@, *layout, m, 2));
        k = 2;
    }
    while k < n
        invariant
            1 <= k <= n,
            k == 1 ==> n == 1,
            n == channels@.len(),
            forall|c: int|
                0 <= c < channels@.len() ==> (#[trigger] channels@[c]).wf(offsets@, *layout),
            writer@ == elements(tables@, channels@, offsets@, *layout, m, k as nat),
        decreases n - k,
    {
        assert(channels@[k as int].wf(offsets@, *layout));
        write_single(&mut writer, tables, &channels[k], offsets, layout);
        k += 1;
    }
    writer.write_u8(7, 3);  // END
    writer.into_bytes()
}

/// The configuration that an ADIF header carries for an encoder.
pub open spec fn asc_of(config: EncoderConfig) -> AudioSpecificConfig {
    AudioSpecificConfig {
        audio_object_type: config.audio_object_type,
        sampling_rate: config.sampling_rate,
        channel_config: config.channel_config,
        frame_length: config.frame_length,
        depends_on_core_coder: false,
        core_coder_delay: 0,
        extension_audio_object_type: None,
        extension_sampling_rate: None,
        sbr_present: false,
        ps_present: false,
    }
}

/// The ADIF header of an encoder's stream: one program, variable rate.
pub open spec fn adif_of(config: EncoderConfig) -> AdifHeaderView {
    AdifHeaderView {
        copyright_id_present: false,
        copyright_id: Seq::new(9, |i: int| 0u8),
        original_copy: false,
        home: false,
        bitstream_type: true,
        bitrate: config.bitrate_bps,
        num_program_config_elements: 1,
        buffer_fullness: 0,
        configs: seq![asc_of(config)],
    }
}

fn adif_header(config: &EncoderConfig) -> (r: AdifHeader)
    ensures
        r@ == adif_of(*config),
{
    let asc = AudioSpecificConfig {
        audio_object_type: config.audio_object_type,
        sampling_rate: config.sampling_rate,
        channel_config: config.channel_config,
        frame_length: config.frame_length,
        depends_on_core_coder: false,
        core_coder_delay: 0,
        extension_audio_object_type: None,
        extension_sampling_rate: None,
        sbr_present: false,
        ps_present: false,
    };
    let mut configs: Vec<AudioSpecificConfig> = Vec::new();
    configs.push(asc);
    let r = AdifHeader {
        copyright_id_present: false,
        copyright_id: [0;9],
        original_copy: false,
        home: false,
        bitstream_type: true,
        bitrate: config.bitrate_bps,
        num_program_config_elements: 1,
        buffer_fullness: 0,
        configs,
    };
    assert(r@.copyright_id =~= adif_of(*config).copyright_id);
    assert(r@.configs =~= adif_of(*config).configs);
    r
}

/// Puts raw data blocks into the configured framing.
#[derive(Debug, Clone)]
pub struct FrameWriter {
    config: EncoderConfig,
    adif_header_written: bool,
    frame_count: u64,
}

impl FrameWriter {
    pub closed spec fn settings(self) -> EncoderConfig {
        self.config
    }

    /// Whether the one-time header has been written.
    pub closed spec fn has_header(self) -> bool {
        self.adif_header_written
    }

    /// Frames written so far.
    pub closed spec fn frames(self) -> nat {
        self.frame_count as nat
    }

    pub fn new(config: EncoderConfig) -> (r: Self)
        ensures
            r.settings() == config,
            !r.has_header(),
            r.frames() == 0,
    {
        FrameWriter { config, adif_header_written: false, frame_count: 0 }
    }

    /// Frames encoded so far.
    pub fn frame_count(&self) -> (r: u64)
        ensures
            r == self.frames(),
    {
        self.frame_count
    }

    /// Counts frames from zero again.
    pub fn reset(&mut self)
        ensures
            final(self).settings() == old(self).settings(),
            final(self).has_header() == old(self).has_header(),
            final(self).frames() == 0,
    {
        self.frame_count = 0;
    }

    /// The bits of a frame that carries `block`: with a header of its own in
    /// an ADTS stream, behind the one-time header in the first frame of an
    /// ADIF stream, and bare in the frames after that.
    pub open spec fn framed(config: EncoderConfig, header_written: bool, block: Seq<bool>) -> Seq<
        bool,
    > {
        match config.output_format {
            OutputFormat::Adts => framing::frame_header(
                block.len() / 8,
                config.audio_object_type,
                config.sampling_rate,
                config.channel_config,
            ).encode() + block,
            OutputFormat::Adif => if header_written {
                block
            } else {
                bits::padded(adif_of(config).encode() + block)
            },
        }
    }

    /// Serializes a frame. `mask` says which bands of a pair are coded as mid
    /// and side; without one none are.
    pub fn write_frame(
        &mut self,
        tables: &EncodeTables,
        channels: &Vec<ChannelCoding>,
        offsets: &[usize],
        layout: &Layout,
        mask: Option<&[bool]>,
    ) -> (r: Vec<u8>)
        requires
            channels@.len() >= 1,
            forall|c: int|
                0 <= c < channels@.len() ==> (#[trigger] channels@[c]).wf(offsets@, *layout),
            mask matches Some(m) ==> layout.bands() <= m@.len(),
            old(self).frames() < u64::MAX,
            raw_block(
                tables@,
                channels@,
                offsets@,
                *layout,
                match mask {
                    Some(m) => Some(m@),
                    None => None,
                },
            ).len() / 8 + 7 <= usize::MAX,
        ensures
            bits::bytes(r@) == Self::framed(
                old(self).settings(),
                old(self).has_header(),
                raw_block(
                    tables@,
                    channels@,
                    offsets@,
                    *layout,
                    match mask {
                        Some(m) => Some(m@),
                        None => None,
                    },
                ),
            ),
            final(self).settings() == old(self).settings(),
            final(self).frames() == old(self).frames() + 1,
            final(self).has_header() == (old(self).has_header() || old(
                self,
            ).settings().output_format == OutputFormat::Adif),
    {
        let payload: Vec<u8> = write_raw_block(tables, channels, offsets, layout, mask);
        proof {
            bits::lemma_bytes_len(payload@);
        }
        self.frame_count = self.frame_count + 1;
        match self.config.output_format {
            OutputFormat::Adts => {
                finalize_adts_frame(
                    payload.as_slice(),
                    self.config.audio_object_type,
                    self.config.sampling_rate,
                    self.config.channel_config,
                )
            },
            OutputFormat::Adif => {
                if self.adif_header_written {
                    payload
                } else {
                    self.adif_header_written = true;
                    let header: AdifHeader = adif_header(&self.config);
                    let mut head = BitWriter::new();
                    header.write(&mut head);
                    head.write_bytes(payload.as_slice());
                    assert(head@ =~= adif_of(self.config).encode() + bits::bytes(payload@));
                    head.into_bytes()
                }
            },
        }
    }
}

/// The first frame of an ADIF stream starts with the header, and what follows
/// the header is the raw data block, bit for bit.
pub proof fn law_adif_frame_roundtrip(config: EncoderConfig, block: Seq<bool>)
    requires
        config.output_format == OutputFormat::Adif,
        asc_of(config).representable(),
        config.bitrate_bps < 0x80_0000,
    ensures
        ({
            let (header, c) = AdifHeaderView::decode(
                Cursor::at(FrameWriter::framed(config, false, block)),
            );
            &&& header == adif_of(config)
            &&& c.fault is None
            &&& c.bits.take(block.len() as int) == block
            &&& c.bits.len() < block.len() + 8
        }),
{
    let head = adif_of(config).encode();
    let pad = bits::zeros(bits::padding((head + block).len()));
    assert((head + block) + pad =~= head + (block + pad));
    assert(adif_of(config).configs[0] == asc_of(config));
    crate::syntax::adif::law_adif_roundtrip(adif_of(config), block + pad);
    assert((block + pad).take(block.len() as int) =~= block);
}

/// Every frame of an ADTS stream starts with a header that names its length,
/// and what follows the header is the raw data block.
pub proof fn law_adts_frames_are_well_formed(config: EncoderConfig, block: Seq<bool>)
    requires
        config.output_format == OutputFormat::Adts,
        1 <= config.audio_object_type.code() <= 4,
        !(config.sampling_rate is Custom),
        config.channel_config.code() < 8,
        block.len() % 8 == 0,
        block.len() / 8 + 7 < 8192,
    ensures
        ({
            let frame = FrameWriter::framed(config, false, block);
            let (header, c) = crate::syntax::adts::AdtsHeader::decode(Cursor::at(frame));
            &&& 8 * header.frame_length == frame.len()
            &&& header.sampling_rate == config.sampling_rate
            &&& header.channel_config == config.channel_config
            &&& c == Cursor::at(block)
        }),
{
    let header = framing::frame_header(
        block.len() / 8,
        config.audio_object_type,
        config.sampling_rate,
        config.channel_config,
    );
    crate::syntax::adts::law_adts_roundtrip(header, block);
    crate::syntax::adts::law_adts_size(header);
}

} // verus!
