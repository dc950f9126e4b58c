//! Deciding when to switch to short windows.
//!
//! A long transform spreads its quantization noise over two frames, which on a
//! sudden attack is audible before the attack. Eight short transforms confine
//! the damage to an eighth of the frame.
//!
//! Short windows cannot follow a long one directly: the two window halves that
//! meet at the boundary have to be the same shape or the transform's aliasing
//! does not cancel. A frame of short windows therefore has to be announced by
//! a start window in the frame before it, so the decision needs to see one
//! frame further than it codes. [`BlockSwitch::decide`] takes both.

use crate::bits;
use crate::types::WindowSequence;
use vstd::arithmetic::power2::*;
use vstd::prelude::*;

verus! {

/// Sub-blocks a frame is divided into, which is also the number of short windows.
pub const SUB_BLOCKS: usize = 8;

/// Groups the short-window grouping table produces.
pub const MAX_GROUPS: usize = 4;

/// Bitrate per channel above which short windows are cheap enough for the
/// looser attack ratio.
pub const HIGH_RATE_PER_CHANNEL: u32 = 16_000;

/// How the eight short windows are grouped, by where the attack landed.
///
/// The group carrying the attack is kept short so its scalefactors can follow
/// the transient, while the windows either side are pooled.
pub const GROUPING: [[usize; 4]; 8] = [
    [1, 3, 3, 1],
    [1, 1, 3, 3],
    [2, 1, 3, 2],
    [3, 1, 3, 1],
    [3, 1, 1, 3],
    [3, 2, 1, 2],
    [3, 3, 1, 1],
    [3, 3, 1, 1],
];

/// What the detector found in one frame.
#[derive(Debug, Clone, Copy, PartialEq, Eq, Structural)]
pub struct Transient {
    /// Whether the frame carries an attack.
    pub attack: bool,
    /// Which sub-block it landed in.
    pub sub_block: usize,
}

/// The window sequence for a frame, and how its short windows are grouped.
#[derive(Debug, Clone, Copy, PartialEq, Eq)]
pub struct BlockDecision {
    pub sequence: WindowSequence,
    /// Windows in each group; one group of one for anything but eight short.
    pub groups: [usize; 8],
    /// Groups in use.
    pub group_count: usize,
}

/// The total of the first `n` groups.
pub open spec fn windows_in(groups: Seq<usize>, n: int) -> int
    decreases n,
{
    if n <= 0 {
        0
    } else {
        windows_in(groups, n - 1) + groups[n - 1]
    }
}

/// For each window of the first `n` groups, whether it continues the group of
/// the window before it.
pub open spec fn continued(groups: Seq<usize>, n: int) -> Seq<bool>
    decreases n,
{
    if n <= 0 {
        Seq::empty()
    } else {
        continued(groups, n - 1) + Seq::new(groups[n - 1] as nat, |w: int| w > 0)
    }
}

/// The seven bits that say of each window after the first whether it continues
/// a group. Windows that no group has start one.
pub open spec fn grouping_field(groups: Seq<usize>, n: int) -> Seq<bool> {
    let flags = continued(groups, n);
    Seq::new(7, |i: int| i + 1 < flags.len() && flags[i + 1])
}

/// The group lengths that a grouping field describes.
pub open spec fn runs(field: Seq<bool>) -> Seq<usize>
    decreases field.len(),
{
    if field.len() == 0 {
        seq![1]
    } else {
        let before = runs(field.drop_last());
        if field.last() {
            before.drop_last().push((before.last() + 1) as usize)
        } else {
            before.push(1)
        }
    }
}

proof fn lemma_continued_len(groups: Seq<usize>, n: int)
    requires
        0 <= n <= groups.len(),
    ensures
        continued(groups, n).len() == windows_in(groups, n),
    decreases n,
{
    if n > 0 {
        lemma_continued_len(groups, n - 1);
    }
}

/// A group of `k` windows, appended to a field, appends a run.
proof fn lemma_runs_group(before: Seq<bool>, k: nat)
    requires
        1 <= k <= 8,
    ensures
        runs(before + seq![false] + Seq::new((k - 1) as nat, |i: int| true)) == runs(before).push(
            k as usize,
        ),
    decreases k,
{
    let trues = Seq::new((k - 1) as nat, |i: int| true);
    let s = before + seq![false] + trues;
    if k == 1 {
        assert(s.drop_last() =~= before);
    } else {
        let fewer = Seq::new((k - 2) as nat, |i: int| true);
        assert(s.drop_last() =~= before + seq![false] + fewer);
        lemma_runs_group(before, (k - 1) as nat);
        assert(runs(before).push((k - 1) as usize).drop_last() =~= runs(before));
    }
}

proof fn lemma_runs_first(k: nat)
    requires
        1 <= k <= 8,
    ensures
        runs(Seq::new((k - 1) as nat, |i: int| true)) == seq![k as usize],
    decreases k,
{
    let s = Seq::new((k - 1) as nat, |i: int| true);
    if k == 1 {
        assert(s =~= Seq::<bool>::empty());
    } else {
        assert(s.drop_last() =~= Seq::new((k - 2) as nat, |i: int| true));
        lemma_runs_first((k - 1) as nat);
        assert(seq![(k - 1) as usize].drop_last().push(k as usize) =~= seq![k as usize]);
    }
}

proof fn lemma_runs_of_groups(groups: Seq<usize>, n: int)
    requires
        1 <= n <= groups.len(),
        forall|g: int| 0 <= g < n ==> 1 <= #[trigger] groups[g] <= 8,
    ensures
        continued(groups, n).len() >= 1,
        runs(continued(groups, n).skip(1)) == groups.take(n),
    decreases n,
{
    let k = groups[n - 1] as nat;
    let tail = Seq::new(k, |w: int| w > 0);
    let trues = Seq::new((k - 1) as nat, |i: int| true);
    if n == 1 {
        assert(continued(groups, 0) =~= Seq::<bool>::empty());
        assert(continued(groups, 1).skip(1) =~= trues);
        lemma_runs_first(k);
        assert(groups.take(1) =~= seq![k as usize]);
    } else {
        lemma_runs_of_groups(groups, n - 1);
        let before = continued(groups, n - 1).skip(1);
        assert(continued(groups, n).skip(1) =~= before + seq![false] + trues);
        lemma_runs_group(before, k);
        assert(groups.take(n) =~= groups.take(n - 1).push(k as usize));
    }
}

/// The grouping field of groups that cover all eight windows reads back as
/// those groups.
pub proof fn law_grouping_roundtrip(groups: Seq<usize>, n: int)
    requires
        1 <= n <= groups.len(),
        forall|g: int| 0 <= g < n ==> 1 <= #[trigger] groups[g] <= 8,
        windows_in(groups, n) == SUB_BLOCKS,
    ensures
        runs(grouping_field(groups, n)) == groups.take(n),
{
    lemma_continued_len(groups, n);
    lemma_runs_of_groups(groups, n);
    assert(grouping_field(groups, n) =~= continued(groups, n).skip(1));
}

/// The grouping of every sub-block covers all eight windows.
pub proof fn law_groups_cover_every_window(position: int)
    requires
        0 <= position < SUB_BLOCKS,
    ensures
        windows_in(GROUPING[position]@, MAX_GROUPS as int) == SUB_BLOCKS,
        forall|g: int| 0 <= g < MAX_GROUPS ==> 1 <= #[trigger] GROUPING[position]@[g] <= 8,
{
    reveal_with_fuel(windows_in, 5);
}

impl BlockDecision {
    /// The groups in use cover no more than the eight windows there are.
    pub open spec fn fits(self) -> bool {
        &&& self.group_count <= SUB_BLOCKS
        &&& windows_in(self.groups@, self.group_count as int) <= SUB_BLOCKS
    }

    /// A long frame is one group; the groups of a short one, at most four, have
    /// each a window, and together all eight.
    pub open spec fn is_complete(self) -> bool {
        if self.sequence == WindowSequence::EightShortSequence {
            &&& 1 <= self.group_count <= MAX_GROUPS
            &&& forall|g: int| 0 <= g < self.group_count ==> 1 <= #[trigger] self.groups@[g] <= 8
            &&& windows_in(self.groups@, self.group_count as int) == SUB_BLOCKS
        } else {
            self.group_count == 1
        }
    }

    /// The `scale_factor_grouping` field, seven bits saying where groups begin.
    ///
    /// Bit `6 - i` is clear when short window `i + 1` starts a new group.
    pub fn grouping_bits(&self) -> (r: u8)
        requires
            self.sequence == WindowSequence::EightShortSequence ==> self.fits(),
        ensures
            self.sequence != WindowSequence::EightShortSequence ==> r == 0,
            self.sequence == WindowSequence::EightShortSequence ==> r == bits::value(
                grouping_field(self.groups@, self.group_count as int),
            ),
            r < 128,
    {
        match self.sequence {
            WindowSequence::EightShortSequence => {},
            _ => {
                return 0;
            },
        }
        let mut flags: Vec<bool> = Vec::new();
        let mut g: usize = 0;
        while g < self.group_count
            invariant
                g <= self.group_count <= 8,
                flags@ == continued(self.groups@, g as int),
            decreases self.group_count - g,
        {
            let ghost before = flags@;
            let mut w: usize = 0;
            while w < self.groups[g as usize]
                invariant
                    g < self.group_count <= 8,
                    w <= self.groups@[g as int],
                    before == continued(self.groups@, g as int),
                    flags@ == before + Seq::new(w as nat, |w: int| w > 0),
                decreases self.groups@[g as int] - w,
            {
                flags.push(w > 0);
                w += 1;
                assert(flags@ =~= before + Seq::new(w as nat, |w: int| w > 0));
            }
            g += 1;
        }
        let ghost field = grouping_field(self.groups@, self.group_count as int);
        let mut acc: u8 = 0;
        let mut i: usize = 0;
        proof {
            lemma2_to64();
            bits::lemma_empty();
            assert(field.take(0) =~= Seq::<bool>::empty());
        }
        while i < 7
            invariant
                i <= 7,
                flags@ == continued(self.groups@, self.group_count as int),
                field == grouping_field(self.groups@, self.group_count as int),
                field.len() == 7,
                acc == bits::value(field.take(i as int)),
                acc < pow2(i as nat),
            decreases 7 - i,
        {
            let bit: bool = i + 1 < flags.len() && flags[i + 1];
            proof {
                assert(field.take(i + 1) =~= field.take(i as int).push(bit));
                bits::lemma_value_push(field.take(i as int), bit);
                bits::lemma_value_bound(field.take(i + 1));
                lemma2_to64();
                lemma_pow2_strictly_increases(i as nat, 7);
            }
            acc = acc * 2 + if bit {
                1
            } else {
                0
            };
            i += 1;
        }
        proof {
            assert(field.take(7) =~= field);
            lemma2_to64();
        }
        acc
    }
}

/// The sequence of the next frame, given that of the frame before it and
/// whether it and its successor carry an attack.
pub open spec fn next_sequence(
    previous: WindowSequence,
    here: bool,
    next: bool,
) -> WindowSequence {
    match previous {
        // A start window has promised short windows.
        WindowSequence::LongStartSequence => WindowSequence::EightShortSequence,
        WindowSequence::EightShortSequence => if here {
            WindowSequence::EightShortSequence
        } else {
            WindowSequence::LongStopSequence
        },
        _ => if next {
            WindowSequence::LongStartSequence
        } else {
            WindowSequence::OnlyLongSequence
        },
    }
}

/// Whether the window halves of two successive frames have the same shape
/// where they meet.
pub open spec fn joins(previous: WindowSequence, next: WindowSequence) -> bool {
    let ends_short = previous == WindowSequence::LongStartSequence || previous
        == WindowSequence::EightShortSequence;
    let starts_short = next == WindowSequence::EightShortSequence || next
        == WindowSequence::LongStopSequence;
    ends_short == starts_short
}

/// Whatever the detector finds, every sequence joins the one before it.
pub proof fn law_sequences_always_join_up(previous: WindowSequence, here: bool, next: bool)
    ensures
        joins(previous, next_sequence(previous, here, next)),
{
}

/// An attack that was seen coming is coded with short windows, unless the
/// frame before it had to be a stop window.
pub proof fn law_announced_attacks_are_short(
    previous: WindowSequence,
    here: bool,
    attack: bool,
    after: bool,
)
    requires
        attack,
    ensures
        next_sequence(next_sequence(previous, here, attack), attack, after)
            == WindowSequence::EightShortSequence || next_sequence(previous, here, attack)
            == WindowSequence::LongStopSequence,
{
}

/// Short windows are used only where they are needed: a frame has them if it
/// carries an attack or was promised them by a start window. A start window
/// announces an attack in the frame after it, and short windows that end are
/// followed by a stop window.
pub proof fn law_short_windows_need_an_attack(previous: WindowSequence, here: bool, next: bool)
    ensures
        ({
            let s = next_sequence(previous, here, next);
            &&& s == WindowSequence::EightShortSequence ==> here || previous
                == WindowSequence::LongStartSequence
            &&& s == WindowSequence::LongStartSequence ==> next
            &&& s == WindowSequence::LongStopSequence ==> !here
            &&& previous == WindowSequence::EightShortSequence && !here ==> s
                == WindowSequence::LongStopSequence
            &&& previous == WindowSequence::EightShortSequence && here ==> s
                == WindowSequence::EightShortSequence
            &&& previous == WindowSequence::LongStartSequence ==> s
                == WindowSequence::EightShortSequence
        }),
{
}

/// A frame that is free to choose is a long one, and a start window exactly if
/// its successor carries an attack.
pub proof fn law_long_frames_announce_attacks(previous: WindowSequence, here: bool, next: bool)
    requires
        previous == WindowSequence::OnlyLongSequence || previous
            == WindowSequence::LongStopSequence,
    ensures
        next_sequence(previous, here, next) == WindowSequence::LongStartSequence <==> next,
        next_sequence(previous, here, next) == WindowSequence::OnlyLongSequence <==> !next,
{
}

/// Wherever a stream stands, the third quiet frame in a row is a long one, and
/// so is every quiet frame after it.
pub proof fn law_quiet_streams_are_long(previous: WindowSequence)
    ensures
        ({
            let first = next_sequence(previous, false, false);
            let second = next_sequence(first, false, false);
            let third = next_sequence(second, false, false);
            &&& third == WindowSequence::OnlyLongSequence
            &&& next_sequence(third, false, false) == WindowSequence::OnlyLongSequence
        }),
{
}

/// The window that the attack falls into has a group of its own, and no group
/// pools more than three windows.
pub proof fn law_attacked_window_stands_alone(position: int)
    requires
        0 <= position < SUB_BLOCKS,
    ensures
        exists|g: int|
            0 <= g < MAX_GROUPS && #[trigger] GROUPING[position]@[g] == 1 && windows_in(
                GROUPING[position]@,
                g,
            ) == position,
        forall|g: int| 0 <= g < MAX_GROUPS ==> #[trigger] GROUPING[position]@[g] <= 3,
{
    reveal_with_fuel(windows_in, 5);
    let g: int = if position == 0 {
        0
    } else if position <= 3 {
        1
    } else if position <= 6 {
        2
    } else {
        3
    };
    assert(GROUPING[position]@[g] == 1 && windows_in(GROUPING[position]@, g) == position);
}

/// The sub-block of the last one that stands out, or `otherwise`.
pub open spec fn last_standing_out(standing_out: Seq<bool>, otherwise: usize) -> usize
    decreases standing_out.len(),
{
    if standing_out.len() == 0 {
        otherwise
    } else if standing_out.last() {
        (standing_out.len() - 1) as usize
    } else {
        last_standing_out(standing_out.drop_last(), otherwise)
    }
}

/// The last sub-block that stands out stands out, and none after it does;
/// where none stands out, the answer is the one that was given.
pub proof fn law_last_standing_out(standing_out: Seq<bool>, otherwise: usize)
    requires
        standing_out.len() <= usize::MAX,
    ensures
        ({
            let at = last_standing_out(standing_out, otherwise);
            if standing_out.contains(true) {
                &&& at < standing_out.len()
                &&& standing_out[at as int]
                &&& forall|k: int| at < k < standing_out.len() ==> !#[trigger] standing_out[k]
            } else {
                at == otherwise
            }
        }),
    decreases standing_out.len(),
{
    if standing_out.len() > 0 {
        let rest = standing_out.drop_last();
        law_last_standing_out(rest, otherwise);
        if standing_out.last() {
            assert(standing_out[standing_out.len() - 1]);
        } else if rest.contains(true) {
            let i = choose|i: int| 0 <= i < rest.len() && rest[i];
            assert(standing_out[i]);
            let at = last_standing_out(rest, otherwise);
            assert forall|k: int| at < k < standing_out.len() implies !#[trigger] standing_out[k] by {
                if k < rest.len() {
                    assert(!rest[k]);
                }
            }
        } else if standing_out.contains(true) {
            let i = choose|i: int| 0 <= i < standing_out.len() && standing_out[i];
            assert(rest[i]);
        }
    }
}

/// A frame carries an attack if and only if it is loud and a sub-block stands
/// out, or the frame before had its attack in the last sub-block, from where it
/// still rises into the first one.
pub proof fn law_transient(before: Transient, standing_out: Seq<bool>, loud: bool)
    requires
        standing_out.len() == SUB_BLOCKS,
    ensures
        ({
            let t = BlockSwitch::transient(before, standing_out, loud);
            let rising = before.attack && before.sub_block == 7;
            &&& t.attack <==> (loud && standing_out.contains(true)) || rising
            &&& t.attack && !(loud && standing_out.contains(true)) ==> t.sub_block == 0
            &&& loud && standing_out.contains(true) ==> standing_out[t.sub_block as int]
            &&& !t.attack && !standing_out.contains(true) ==> t.sub_block == before.sub_block
            &&& forall|k: int|
                loud && t.sub_block < k < SUB_BLOCKS && standing_out.contains(true)
                    ==> !#[trigger] standing_out[k]
        }),
{
    law_last_standing_out(standing_out, before.sub_block);
}

/// Turns what stands out of a frame into attacks, and attacks into window
/// sequences.
#[derive(Debug, Clone, Copy, PartialEq, Eq, Structural)]
pub struct BlockSwitch {
    high_rate: bool,
    previous: WindowSequence,
    trailing_attack: bool,
    last_sub_block: usize,
}

impl BlockSwitch {
    /// The sequence the previous frame used.
    pub closed spec fn last_sequence(self) -> WindowSequence {
        self.previous
    }

    /// What the detector found in the previous frame.
    pub closed spec fn last_transient(self) -> Transient {
        Transient { attack: self.trailing_attack, sub_block: self.last_sub_block }
    }

    /// Whether the bitrate pays for the looser attack ratio.
    pub closed spec fn at_high_rate(self) -> bool {
        self.high_rate
    }

    /// Build a detector for a given bitrate per channel.
    pub fn new(bitrate_per_channel_bps: u32) -> (r: Self)
        ensures
            r.at_high_rate() == (bitrate_per_channel_bps > HIGH_RATE_PER_CHANNEL),
            r.last_sequence() == WindowSequence::OnlyLongSequence,
            r.last_transient() == (Transient { attack: false, sub_block: 0 }),
    {
        BlockSwitch {
            high_rate: bitrate_per_channel_bps > HIGH_RATE_PER_CHANNEL,
            previous: WindowSequence::OnlyLongSequence,
            trailing_attack: false,
            last_sub_block: 0,
        }
    }

    /// Forget everything but the bitrate, as at the start of a stream.
    pub fn reset(&mut self)
        ensures
            final(self).at_high_rate() == old(self).at_high_rate(),
            final(self).last_sequence() == WindowSequence::OnlyLongSequence,
            final(self).last_transient() == (Transient { attack: false, sub_block: 0 }),
    {
        self.previous = WindowSequence::OnlyLongSequence;
        self.trailing_attack = false;
        self.last_sub_block = 0;
    }

    /// Whether the bitrate pays for the looser attack ratio.
    pub fn is_high_rate(&self) -> (r: bool)
        ensures
            r == self.at_high_rate(),
    {
        self.high_rate
    }

    /// What the detector finds in a frame, given what it found in the one
    /// before, which sub-blocks stand out, and whether the frame is loud
    /// enough for that to count.
    pub open spec fn transient(before: Transient, standing_out: Seq<bool>, loud: bool) -> Transient {
        let attack = loud && standing_out.contains(true);
        if !attack && before.attack && before.sub_block == SUB_BLOCKS - 1 {
            // An attack on the very last sub-block is still rising when the
            // frame ends.
            Transient { attack: true, sub_block: 0 }
        } else {
            Transient {
                attack,
                sub_block: last_standing_out(standing_out, before.sub_block),
            }
        }
    }

    /// Say whether a frame carries an attack.
    ///
    /// `standing_out` says of each sub-block whether its energy stands far
    /// enough above the running average, and `loud` whether any sub-block has
    /// enough energy for that to be trusted.
    pub fn analyse(&mut self, standing_out: &[bool; 8], loud: bool) -> (r: Transient)
        ensures
            r == Self::transient(old(self).last_transient(), standing_out@, loud),
            final(self).last_transient() == r,
            final(self).last_sequence() == old(self).last_sequence(),
            final(self).at_high_rate() == old(self).at_high_rate(),
    {
        let mut found: bool = false;
        let mut sub_block: usize = self.last_sub_block;
        let mut w: usize = 0;
        assert(standing_out@.take(0) =~= Seq::<bool>::empty());
        while w < 8
            invariant
                w <= 8,
                found == standing_out@.take(w as int).contains(true),
                sub_block == last_standing_out(
                    standing_out@.take(w as int),
                    self.last_sub_block,
                ),
            decreases 8 - w,
        {
            proof {
                let next = standing_out@.take(w + 1);
                let so_far = standing_out@.take(w as int);
                assert(next.drop_last() =~= so_far);
                assert(next.last() == standing_out@[w as int]);
                if standing_out@[w as int] {
                    assert(next[w as int]);
                } else if found {
                    let i = choose|i: int| 0 <= i < so_far.len() && so_far[i];
                    assert(next[i]);
                } else if next.contains(true) {
                    let i = choose|i: int| 0 <= i < next.len() && next[i];
                    assert(so_far[i]);
                }
            }
            if standing_out[w] {
                found = true;
                sub_block = w;
            }
            w += 1;
        }
        assert(standing_out@.take(8) =~= standing_out@);
        let mut attack: bool = found && loud;
        if !attack && self.trailing_attack && self.last_sub_block == SUB_BLOCKS - 1 {
            attack = true;
            sub_block = 0;
        }
        self.trailing_attack = attack;
        self.last_sub_block = sub_block;
        Transient { attack, sub_block }
    }

    /// Choose the sequence for the frame now being coded.
    ///
    /// `here` describes that frame and `next` the one after it.
    pub fn decide(&mut self, here: Transient, next: Transient) -> (r: BlockDecision)
        ensures
            r.sequence == next_sequence(old(self).last_sequence(), here.attack, next.attack),
            final(self).last_sequence() == r.sequence,
            final(self).last_transient() == old(self).last_transient(),
            final(self).at_high_rate() == old(self).at_high_rate(),
            r.sequence == WindowSequence::EightShortSequence ==> {
                let row = if here.sub_block < SUB_BLOCKS {
                    here.sub_block as int
                } else {
                    SUB_BLOCKS - 1
                };
                &&& r.group_count == MAX_GROUPS
                &&& r.groups@ == GROUPING[row]@ + seq![0usize, 0, 0, 0]
            },
            r.sequence != WindowSequence::EightShortSequence ==> {
                &&& r.group_count == 1
                &&& r.groups@ == seq![1usize, 1, 1, 1, 1, 1, 1, 1]
            },
            r.fits(),
            r.is_complete(),
    {
        let sequence: WindowSequence = match self.previous {
            WindowSequence::LongStartSequence => WindowSequence::EightShortSequence,
            WindowSequence::EightShortSequence => if here.attack {
                WindowSequence::EightShortSequence
            } else {
                WindowSequence::LongStopSequence
            },
            _ => if next.attack {
                WindowSequence::LongStartSequence
            } else {
                WindowSequence::OnlyLongSequence
            },
        };
        self.previous = sequence;
        if sequence == WindowSequence::EightShortSequence {
            let at: usize = if here.sub_block < SUB_BLOCKS {
                here.sub_block
            } else {
                SUB_BLOCKS - 1
            };
            let row: [usize; 4] = GROUPING[at];
            let groups: [usize; 8] = [row[0], row[1], row[2], row[3], 0, 0, 0, 0];
            proof {
                assert(groups@ =~= row@ + seq![0usize, 0, 0, 0]);
                law_groups_cover_every_window(at as int);
                lemma_windows_prefix(groups@, row@, 4);
            }
            BlockDecision { sequence, groups, group_count: MAX_GROUPS }
        } else {
            let groups: [usize; 8] = [1;8];
            proof {
                assert(groups@ =~= seq![1usize, 1, 1, 1, 1, 1, 1, 1]);
                reveal_with_fuel(windows_in, 2);
            }
            BlockDecision { sequence, groups, group_count: 1 }
        }
    }

    /// The sequence the previous frame used.
    pub fn previous(&self) -> (r: WindowSequence)
        ensures
            r == self.last_sequence(),
    {
        self.previous
    }
}

proof fn lemma_windows_prefix(a: Seq<usize>, b: Seq<usize>, n: int)
    requires
        0 <= n <= a.len(),
        n <= b.len(),
        forall|i: int| 0 <= i < n ==> #[trigger] a[i] == b[i],
    ensures
        windows_in(a, n) == windows_in(b, n),
    decreases n,
{
    if n > 0 {
        lemma_windows_prefix(a, b, n - 1);
        assert(a[n - 1] == b[n - 1]);
    }
}

} // verus!
