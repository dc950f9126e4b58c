//! What a frame holds besides its payload, and how the bits are shared out.

use crate::bits;
use crate::encoder::aac::block_switch;
use crate::encoder::aac::block_switch::BlockDecision;
use crate::encoder::aac::huffman::Codes;
use crate::encoder::aac::ics;
use crate::encoder::aac::ics::{ChannelCoding, Layout};
use crate::encoder::engine;
use crate::encoder::engine::{EncoderConfig, Geometry};
use crate::layouts;
use crate::tables::scalefactor;
use crate::types::WindowSequence;
use vstd::arithmetic::power2::*;
use vstd::prelude::*;

verus! {

/// A channel that gets more used up its share to within eight bits, and no
/// other such channel wants more; of those that want the same it is the last.
/// Without one, no channel used up its share.
pub proof fn law_hungriest_channel(
    used: Seq<usize>,
    budgets: Seq<usize>,
    demand: Seq<u32>,
    n: int,
)
    requires
        0 <= n <= used.len(),
        used.len() == budgets.len(),
    ensures
        match engine::hungriest(used, budgets, demand, n) {
            Some(c) => {
                &&& 0 <= c < n
                &&& budgets[c] - used[c] <= 8
                &&& forall|k: int|
                    #![trigger used[k]]
                    0 <= k < n && budgets[k] - used[k] <= 8 ==> demand[k] <= demand[c] && (demand[k]
                        == demand[c] ==> k <= c)
            },
            None => forall|k: int|
                #![trigger used[k]]
                0 <= k < n ==> budgets[k] - used[k] > 8,
        },
    decreases n,
{
    if n > 0 {
        law_hungriest_channel(used, budgets, demand, n - 1);
    }
}

/// Nothing spent adds up to nothing, and what one channel spends more, all
/// together spend more.
pub proof fn law_total(s: Seq<usize>, n: int, i: int, more: usize)
    requires
        0 <= i < n <= s.len(),
        s[i] + more <= usize::MAX,
    ensures
        engine::total(s.update(i, (s[i] + more) as usize), n) == engine::total(s, n) + more,
        engine::total(Seq::new(s.len(), |k: int| 0usize), n) == 0,
    decreases n,
{
    let t = s.update(i, (s[i] + more) as usize);
    if i < n - 1 {
        law_total(s, n - 1, i, more);
    } else {
        lemma_total_same(s, t, n - 1);
        lemma_total_zero(s.len(), n - 1);
    }
}

proof fn lemma_total_same(s: Seq<usize>, t: Seq<usize>, n: int)
    requires
        n <= s.len(),
        n <= t.len(),
        forall|k: int| 0 <= k < n ==> #[trigger] s[k] == t[k],
    ensures
        engine::total(s, n) == engine::total(t, n),
    decreases n,
{
    if n > 0 {
        lemma_total_same(s, t, n - 1);
    }
}

proof fn lemma_total_zero(len: nat, n: int)
    requires
        n <= len,
    ensures
        engine::total(Seq::new(len, |k: int| 0usize), n) == 0,
    decreases n,
{
    if n > 0 {
        lemma_total_zero(len, n - 1);
    }
}

proof fn lemma_info_len(layout: Layout, rest: Seq<bool>)
    ensures
        ics::ics_info(layout, rest).len() == rest.len() + if layout.sequence
            == WindowSequence::EightShortSequence {
            15int
        } else {
            11
        },
{
    reveal(bits::field);
    reveal(bits::flag);
    broadcast use bits::broadcast_uint_len;

}

/// What is counted as taken is what a frame of one channel holds besides the
/// channel's payload: a header of seven bytes, and the block without its
/// padding.
pub proof fn law_overhead_of_one_channel(
    codes: Codes,
    ch: ChannelCoding,
    offsets: Seq<usize>,
    layout: Layout,
    mask: Option<Seq<bool>>,
)
    ensures
        ({
            let short = layout.sequence == WindowSequence::EightShortSequence;
            let held = engine::elements(codes, seq![ch], offsets, layout, mask, 1).len() + 3;
            56 + held == engine::overhead(short, 0, 1) + ch.payload(codes, offsets, layout).len()
        }),
{
    reveal(bits::field);
    broadcast use bits::broadcast_uint_len;

    lemma_info_len(layout, ch.payload(codes, offsets, layout));
    assert(seq![ch][0] == ch);
}

/// The same for a pair of channels, with a mask or without.
pub proof fn law_overhead_of_a_pair(
    codes: Codes,
    left: ChannelCoding,
    right: ChannelCoding,
    offsets: Seq<usize>,
    layout: Layout,
    mask: Option<Seq<bool>>,
)
    requires
        mask matches Some(m) ==> layout.bands() <= m.len(),
    ensures
        ({
            let short = layout.sequence == WindowSequence::EightShortSequence;
            let bands = if mask is Some { layout.max_sfb * layout.group_count } else { 0int };
            let held = engine::elements(codes, seq![left, right], offsets, layout, mask, 2).len()
                + 3;
            56 + held == engine::overhead(short, bands, 2) + left.payload(
                codes,
                offsets,
                layout,
            ).len() + right.payload(codes, offsets, layout).len()
        }),
{
    reveal(bits::field);
    reveal(bits::flag);
    broadcast use bits::broadcast_uint_len;

    let bodies = left.body(codes, offsets, layout) + right.body(codes, offsets, layout);
    lemma_info_len(layout, engine::mask_field(mask, layout.bands() as int, bodies));
    assert(seq![left, right][0] == left && seq![left, right][1] == right);
}

/// A channel on its own: its identifier and its tag, both zero, its gain, its
/// window description.
pub proof fn law_single_layout(
    codes: Codes,
    ch: ChannelCoding,
    offsets: Seq<usize>,
    layout: Layout,
    from: int,
    w: nat,
)
    requires
        0 <= ch.gain(layout.bands() as int) <= 255,
    ensures
        ({
            let s = engine::single(codes, ch, offsets, layout);
            &&& layouts::number_at(s, 0, 3) == 0
            &&& layouts::number_at(s, 3, 4) == 0
            &&& layouts::number_at(s, 7, 8) == ch.gain(layout.bands() as int)
            &&& layouts::bit_at(s, 15) == false
            &&& layouts::number_at(s, 16, 2) == layout.sequence.code()
            &&& from >= 0 ==> layouts::number_at(
                s,
                from + if layout.sequence == WindowSequence::EightShortSequence {
                    30int
                } else {
                    26
                },
                w,
            ) == layouts::number_at(ch.payload(codes, offsets, layout), from, w)
        }),
{
    broadcast use {layouts::lemma_at_field, layouts::lemma_at_flag};

    lemma2_to64();
    let short = layout.sequence == WindowSequence::EightShortSequence;
    let payload = ch.payload(codes, offsets, layout);
    let at = if short { 15int } else { 11 };
    let info = ics::ics_info(layout, payload);
    if from >= 0 {
        assert(layouts::number_at(info, from + at, w) == layouts::number_at(payload, from, w));
        let s = engine::single(codes, ch, offsets, layout);
        assert(layouts::number_at(s, from + at + 15, w) == layouts::number_at(info, from + at, w));
    }
}

/// A pair of channels: its identifier, its tag, which is zero, that the window
/// description is shared, the description, and the mask.
pub proof fn law_pair_layout(
    codes: Codes,
    left: ChannelCoding,
    right: ChannelCoding,
    offsets: Seq<usize>,
    layout: Layout,
    mask: Option<Seq<bool>>,
    b: int,
)
    requires
        mask matches Some(m) ==> layout.bands() <= m.len(),
    ensures
        ({
            let s = engine::pair(codes, left, right, offsets, layout, mask);
            let at = if layout.sequence == WindowSequence::EightShortSequence {
                23int
            } else {
                19
            };
            &&& layouts::number_at(s, 0, 3) == 1
            &&& layouts::number_at(s, 3, 4) == 0
            &&& layouts::bit_at(s, 7)
            &&& layouts::bit_at(s, 8) == false
            &&& layouts::number_at(s, 9, 2) == layout.sequence.code()
            &&& layouts::number_at(s, at, 2) == if mask is Some {
                1nat
            } else {
                0
            }
            &&& mask matches Some(m) ==> (0 <= b < layout.bands() ==> layouts::bit_at(
                s,
                at + 2 + b,
            ) == m[b])
        }),
{
    broadcast use {layouts::lemma_at_field, layouts::lemma_at_flag};

    lemma2_to64();
    let short = layout.sequence == WindowSequence::EightShortSequence;
    let bodies = left.body(codes, offsets, layout) + right.body(codes, offsets, layout);
    let bands = layout.bands() as int;
    let field = engine::mask_field(mask, bands, bodies);
    let info = ics::ics_info(layout, field);
    let at = if short { 15int } else { 11 };
    let s = engine::pair(codes, left, right, offsets, layout, mask);
    assert(layouts::number_at(info, at, 2) == layouts::number_at(field, 0, 2));
    assert(layouts::number_at(s, at + 8, 2) == layouts::number_at(info, at, 2));
    if mask is Some && 0 <= b < bands {
        let m = mask->0;
        assert(layouts::number_at(info, at + 2 + b, 1) == layouts::number_at(field, 2 + b, 1));
        assert(layouts::number_at(s, at + 10 + b, 1) == layouts::number_at(info, at + 2 + b, 1));
        let rest = m.take(bands) + bodies;
        assert(layouts::number_at(field, 2 + b, 1) == layouts::number_at(rest, b, 1));
        assert(layouts::number_at(rest, b, 1) == if m[b] { 1nat } else { 0 }) by {
            reveal_with_fuel(layouts::number_at, 2);
        }
    }
}

/// The channels of a pair follow the mask, each with its gain, the left one
/// first.
pub proof fn law_channels_of_a_pair(
    codes: Codes,
    left: ChannelCoding,
    right: ChannelCoding,
    offsets: Seq<usize>,
    layout: Layout,
    mask: Option<Seq<bool>>,
)
    requires
        mask matches Some(m) ==> layout.bands() <= m.len(),
        0 <= left.gain(layout.bands() as int) <= 255,
        0 <= right.gain(layout.bands() as int) <= 255,
    ensures
        ({
            let s = engine::pair(codes, left, right, offsets, layout, mask);
            let a = left.payload(codes, offsets, layout);
            let b = right.payload(codes, offsets, layout);
            let end = s.len() as int;
            &&& s.skip(end - b.len()) == b
            &&& layouts::number_at(s, end - b.len() - 8, 8) == right.gain(layout.bands() as int)
            &&& s.subrange(end - b.len() - 8 - a.len(), end - b.len() - 8) == a
            &&& layouts::number_at(s, end - b.len() - 16 - a.len(), 8) == left.gain(
                layout.bands() as int,
            )
        }),
{
    let bands = layout.bands() as int;
    let a = left.payload(codes, offsets, layout);
    let b = right.payload(codes, offsets, layout);
    let x = bits::uint(left.gain(bands) as nat, 8);
    let y = bits::uint(right.gain(bands) as nat, 8);
    bits::lemma_uint_len(left.gain(bands) as nat, 8);
    bits::lemma_uint_len(right.gain(bands) as nat, 8);
    let head = lemma_pair_ends(codes, left, right, offsets, layout, mask);
    let s = head + ((x + a) + (y + b));
    let n = head.len() as int;
    let end = s.len() as int;
    assert(s.skip(end - b.len()) =~= b);
    assert(s.subrange(n + 8, n + 8 + a.len()) =~= a);
    assert(s.subrange(n, n + 8) =~= x);
    assert(s.subrange(end - b.len() - 8, end - b.len()) =~= y);
    lemma2_to64();
    bits::lemma_value_of_uint_exact(left.gain(bands) as nat, 8);
    bits::lemma_value_of_uint_exact(right.gain(bands) as nat, 8);
    layouts::lemma_value_at(s, n, 8);
    layouts::lemma_value_at(s, end - b.len() - 8, 8);
}

proof fn lemma_pair_ends(
    codes: Codes,
    left: ChannelCoding,
    right: ChannelCoding,
    offsets: Seq<usize>,
    layout: Layout,
    mask: Option<Seq<bool>>,
) -> (head: Seq<bool>)
    ensures
        ({
            let bands = layout.bands() as int;
            let x = bits::uint(left.gain(bands) as nat, 8);
            let y = bits::uint(right.gain(bands) as nat, 8);
            engine::pair(codes, left, right, offsets, layout, mask) == head + ((x + left.payload(
                codes,
                offsets,
                layout,
            )) + (y + right.payload(codes, offsets, layout)))
        }),
{
    reveal(bits::field);
    reveal(bits::flag);
    let bands = layout.bands() as int;
    let bodies = left.body(codes, offsets, layout) + right.body(codes, offsets, layout);
    let field = engine::mask_field(mask, bands, bodies);
    let one = match mask {
        Some(m) => bits::uint(1, 2) + m.take(bands),
        None => bits::uint(0, 2),
    };
    assert(field =~= one + bodies);
    let two = lemma_info_ends(layout, field);
    let three = bits::uint(1, 3) + bits::uint(0, 4) + bits::bit(true);
    let head = three + two + one;
    assert(engine::pair(codes, left, right, offsets, layout, mask) =~= head + bodies);
    head
}

proof fn lemma_info_ends(layout: Layout, rest: Seq<bool>) -> (head: Seq<bool>)
    ensures
        ics::ics_info(layout, rest) == head + rest,
{
    reveal(bits::field);
    reveal(bits::flag);
    let first = bits::bit(false) + bits::uint(layout.sequence.code() as nat, 2) + bits::uint(0, 1);
    let head = if layout.is_short() {
        first + bits::uint(layout.max_sfb as nat, 4) + bits::uint(layout.grouping_bits as nat, 7)
    } else {
        first + bits::uint(layout.max_sfb as nat, 6) + bits::bit(false)
    };
    assert(ics::ics_info(layout, rest) =~= head + rest);
    head
}

/// The gain of a channel is the scalefactor of its first coded band, as far as
/// eight bits go; without one it is that of unit gain.
pub proof fn law_gain_of_a_channel(ch: ChannelCoding, bands: int)
    ensures
        0 <= ch.gain(bands) <= 255,
        ch.coded.first_coded is None ==> ch.gain(bands) == 100,
        ch.coded.first_coded matches Some(b) ==> {
            let sf = ch.coded.scalefactors@[b as int];
            &&& b >= bands ==> ch.gain(bands) == 100
            &&& b < bands && 0 <= sf <= 255 ==> ch.gain(bands) == sf
            &&& b < bands && sf < 0 ==> ch.gain(bands) == 0
            &&& b < bands && sf > 255 ==> ch.gain(bands) == 255
        },
{
}

proof fn lemma_continued(groups: Seq<usize>, n: int, w: int)
    requires
        0 <= n <= groups.len(),
        forall|g: int| 0 <= g < n ==> 1 <= #[trigger] groups[g],
    ensures
        block_switch::continued(groups, n).len() == block_switch::windows_in(groups, n),
        0 <= w < block_switch::windows_in(groups, n) ==> block_switch::continued(groups, n)[w]
            == !(exists|g: int|
            0 <= g < n && #[trigger] block_switch::windows_in(groups, g) == w),
    decreases n,
{
    if n > 0 {
        lemma_continued(groups, n - 1, w);
        let before = block_switch::windows_in(groups, n - 1);
        if 0 <= w < block_switch::windows_in(groups, n) {
            if w < before {
                if exists|g: int| 0 <= g < n && #[trigger] block_switch::windows_in(groups, g)
                    == w {
                    let g = choose|g: int|
                        0 <= g < n && #[trigger] block_switch::windows_in(groups, g) == w;
                    assert(g < n - 1);
                }
            } else if w == before {
                assert(block_switch::windows_in(groups, n - 1) == w);
            } else {
                assert forall|g: int| 0 <= g < n implies #[trigger] block_switch::windows_in(
                    groups,
                    g,
                ) != w by {
                    crate::encoder::engine::lemma_windows_bound(groups, g, n - 1);
                }
            }
        }
    }
}

/// The grouping field has a bit for each window after the first: it is set
/// unless a group starts there.
pub proof fn law_grouping_field(groups: Seq<usize>, n: int, w: int)
    requires
        1 <= n <= groups.len(),
        forall|g: int| 0 <= g < n ==> 1 <= #[trigger] groups[g],
        block_switch::windows_in(groups, n) == 8,
        1 <= w < 8,
    ensures
        block_switch::grouping_field(groups, n).len() == 7,
        block_switch::grouping_field(groups, n)[w - 1] <==> !(exists|g: int|
            0 <= g < n && #[trigger] block_switch::windows_in(groups, g) == w),
{
    lemma_continued(groups, n, w);
}

/// A frame of short windows is described with the short band table, any other
/// with the long one.
pub proof fn law_layout_of_a_frame(g: Geometry, d: BlockDecision)
    requires
        g.short_offsets@.len() >= 1,
        g.sfb_offsets@.len() >= 1,
        g.short_offsets@.len() <= usize::MAX,
        g.sfb_offsets@.len() <= usize::MAX,
    ensures
        ({
            let l = engine::frame_layout(g, d);
            &&& l.sequence == d.sequence
            &&& l.group_count == d.group_count
            &&& d.sequence is EightShortSequence ==> l.max_sfb == g.short_max_sfb && l.num_swb + 1
                == g.short_offsets@.len()
            &&& d.sequence !is EightShortSequence ==> l.max_sfb == g.max_sfb && l.num_swb + 1
                == g.sfb_offsets@.len() && l.grouping_bits == 0
            &&& l.bands() == l.max_sfb * d.group_count
        }),
{
    assert(0 <= g.max_sfb * d.group_count) by (nonlinear_arith)
        requires
            g.max_sfb >= 0,
            d.group_count >= 0,
    ;
    assert(0 <= g.short_max_sfb * d.group_count) by (nonlinear_arith)
        requires
            g.short_max_sfb >= 0,
            d.group_count >= 0,
    ;
}

/// The band tables of a configuration: the bands follow one another from line
/// zero with the widths of their table, all bands of a long window are coded,
/// and of a short window as many as four bits can name.
pub proof fn law_tables_of_a_configuration(g: Geometry, config: EncoderConfig, k: int)
    requires
        g.is_of(config),
        0 <= k,
    ensures
        ({
            let long = scalefactor::sfb_table(config.sampling_rate, false, config.frame_length);
            let short = scalefactor::sfb_table(config.sampling_rate, true, config.frame_length);
            &&& g.sfb_offsets@.len() == long.len() + 1 && g.sfb_offsets@[0] == 0
            &&& k < long.len() ==> g.sfb_offsets@[k + 1] == g.sfb_offsets@[k] + long[k]
            &&& g.short_offsets@.len() == short.len() + 1 && g.short_offsets@[0] == 0
            &&& k < short.len() ==> g.short_offsets@[k + 1] == g.short_offsets@[k] + short[k]
            &&& g.max_sfb == long.len()
            &&& g.short_max_sfb <= 15 && g.short_max_sfb <= short.len()
            &&& g.short_max_sfb == 15 || g.short_max_sfb == short.len()
        }),
{
    let long = scalefactor::sfb_table(config.sampling_rate, false, config.frame_length);
    let short = scalefactor::sfb_table(config.sampling_rate, true, config.frame_length);
    assert(long.len() <= 51 && short.len() <= 51);
    if k < long.len() {
        scalefactor::lemma_offset_grows(long, 0, k);
        scalefactor::lemma_offset_grows(long, 0, k + 1);
    }
    if k < short.len() {
        scalefactor::lemma_offset_grows(short, 0, k);
        scalefactor::lemma_offset_grows(short, 0, k + 1);
    }
}

/// A third channel and those after it follow the pair, each on its own and in
/// order.
pub proof fn law_further_channels(
    codes: Codes,
    channels: Seq<ChannelCoding>,
    offsets: Seq<usize>,
    layout: Layout,
    mask: Option<Seq<bool>>,
    n: nat,
)
    requires
        2 <= n < channels.len(),
    ensures
        ({
            let before = engine::elements(codes, channels, offsets, layout, mask, n);
            let after = engine::elements(codes, channels, offsets, layout, mask, n + 1);
            let more = engine::single(codes, channels[n as int], offsets, layout);
            &&& after.len() == before.len() + more.len()
            &&& after.take(before.len() as int) == before
            &&& after.skip(before.len() as int) == more
        }),
{
    let before = engine::elements(codes, channels, offsets, layout, mask, n);
    let after = engine::elements(codes, channels, offsets, layout, mask, n + 1);
    let more = engine::single(codes, channels[n as int], offsets, layout);
    assert(after == before + more);
    assert(after.take(before.len() as int) =~= before);
    assert(after.skip(before.len() as int) =~= more);
}

/// A block is its elements, three ones, and zeros up to the end of the byte.
pub proof fn law_end_of_a_block(
    codes: Codes,
    channels: Seq<ChannelCoding>,
    offsets: Seq<usize>,
    layout: Layout,
    mask: Option<Seq<bool>>,
    i: int,
)
    ensures
        ({
            let all = engine::elements(codes, channels, offsets, layout, mask, channels.len());
            let s = engine::raw_block(codes, channels, offsets, layout, mask);
            let n = all.len() as int;
            &&& s.take(n) == all
            &&& n + 3 <= s.len() < n + 11
            &&& s.len() % 8 == 0
            &&& s[n] && s[n + 1] && s[n + 2]
            &&& n + 3 <= i < s.len() ==> !s[i]
        }),
{
    let all = engine::elements(codes, channels, offsets, layout, mask, channels.len());
    let s = engine::raw_block(codes, channels, offsets, layout, mask);
    let n = all.len() as int;
    let end = bits::uint(7, 3);
    assert(end =~= seq![true, true, true]) by {
        reveal_with_fuel(bits::uint, 4);
    }
    assert((all + end).len() == n + 3);
    assert(s.take(n) =~= all);
    assert(s[n] == end[0] && s[n + 1] == end[1] && s[n + 2] == end[2]);
}

} // verus!
