//! Window switching, the rate loop's search and the frame schedule.

use vuiocodecaac::encoder::aac::block_switch::{
    BlockDecision, BlockSwitch, Transient, GROUPING, MAX_GROUPS, SUB_BLOCKS,
};
use vuiocodecaac::encoder::aac::search::{Edge, Phase, Search};
use vuiocodecaac::encoder::aac::tns::{assemble, filter_range, first_band_above};
use vuiocodecaac::encoder::drc::{BlockSchedule, Completes};
use vuiocodecaac::types::{SamplingRate, WindowSequence};

/// Every sequence a run of decisions produces must be one the next can follow.
#[test]
fn sequences_always_join_up() {
    let switcher = BlockSwitch::new(64000);
    let quiet = Transient { attack: false, sub_block: 0 };
    let loud = Transient { attack: true, sub_block: 3 };

    // Every pattern of attacks over eight frames.
    for pattern in 0u32..256 {
        let mut switcher = switcher.clone();
        assert_eq!(switcher.previous(), WindowSequence::OnlyLongSequence);
        let attacks: Vec<Transient> =
            (0..9).map(|i| if pattern >> i & 1 == 1 { loud } else { quiet }).collect();

        let mut previous = WindowSequence::OnlyLongSequence;
        for i in 0..8 {
            let decision = switcher.decide(attacks[i], attacks[i + 1]);
            let ok = match previous {
                WindowSequence::OnlyLongSequence | WindowSequence::LongStopSequence => {
                    matches!(decision.sequence, WindowSequence::OnlyLongSequence | WindowSequence::LongStartSequence)
                }
                WindowSequence::LongStartSequence | WindowSequence::EightShortSequence => {
                    matches!(decision.sequence, WindowSequence::EightShortSequence | WindowSequence::LongStopSequence)
                }
            };
            assert!(
                ok,
                "pattern {pattern:08b}: {previous:?} cannot be followed by {:?}",
                decision.sequence
            );
            previous = decision.sequence;
        }
    }
}

/// Grouping must always cover all eight windows.
#[test]
fn groups_cover_every_window() {
    for position in 0..SUB_BLOCKS {
        let total: usize = GROUPING[position].iter().sum();
        assert_eq!(total, SUB_BLOCKS, "grouping for sub-block {position} covers {total}");
    }
}

/// The grouping field must say exactly where the groups begin.
#[test]
fn grouping_bits_describe_the_groups() {
    for position in 0..SUB_BLOCKS {
        let mut groups = [0usize; SUB_BLOCKS];
        groups[..MAX_GROUPS].copy_from_slice(&GROUPING[position]);
        let decision = BlockDecision {
            sequence: WindowSequence::EightShortSequence,
            groups,
            group_count: MAX_GROUPS,
        };
        let bits = decision.grouping_bits();

        // Decode the field the way the decoder does and compare.
        let mut lengths = Vec::new();
        let mut run = 1usize;
        for i in 0..7 {
            if bits >> (6 - i) & 1 == 1 {
                run += 1;
            } else {
                lengths.push(run);
                run = 1;
            }
        }
        lengths.push(run);
        assert_eq!(lengths, GROUPING[position].to_vec(), "sub-block {position}");
    }
}

#[test]
fn what_stands_out_in_a_loud_frame_is_an_attack() {
    let mut switcher = BlockSwitch::new(64000);
    let none = [false; 8];
    assert!(!switcher.analyse(&none, true).attack);
    let mut one = none;
    one[4] = true;
    let t = switcher.analyse(&one, true);
    assert!(t.attack);
    assert_eq!(t.sub_block, 4);
    switcher.reset();
    assert!(!switcher.analyse(&one, false).attack);
    assert!(switcher.is_high_rate());
    assert!(!BlockSwitch::new(16000).is_high_rate());
}

#[test]
fn the_search_lowers_until_a_probe_fails_and_then_bisects() {
    let mut s = Search::new();
    assert_eq!(s.phase(), Phase::Hint);
    s = s.observe(true);
    assert_eq!(s.phase(), Phase::Lowering);
    s = s.observe(true);
    s = s.observe(false);
    assert_eq!(s.phase(), Phase::Bisecting);
    assert_eq!(s.low(), Edge::Probe(2));
    assert_eq!(s.high(), Edge::Probe(1));
    s = s.observe(true);
    assert_eq!(s.high(), Edge::Probe(3));
    s = s.out_of_room();
    assert_eq!(s.phase(), Phase::Done);
}

#[test]
fn the_search_raises_until_a_probe_fits() {
    let mut s = Search::new().observe(false).observe(false);
    assert_eq!(s.phase(), Phase::Raising);
    assert_eq!(s.high(), Edge::Ceiling);
    s = s.observe(true);
    assert_eq!(s.phase(), Phase::Bisecting);
    assert_eq!((s.low(), s.high()), (Edge::Probe(1), Edge::Probe(2)));
    let never = Search::bisecting().observe(false).out_of_room();
    assert_eq!(never.phase(), Phase::Done);
    assert_eq!(never.high(), Edge::Ceiling);
    assert_eq!(Search::new().low(), Edge::Floor);
}

#[test]
fn gating_blocks_overlap_by_three_quarters() {
    let mut s = BlockSchedule::new(48_000);
    assert_eq!(s.quarter(), 4800);
    let mut blocks = 0;
    let mut quarters = 0;
    for _ in 0..48_000 {
        let (next, done) = s.push();
        s = next;
        match done {
            Completes::Nothing => {}
            Completes::Quarter => quarters += 1,
            Completes::Block => blocks += 1,
        }
    }
    assert_eq!((quarters, blocks), (3, 7));
    assert_eq!(BlockSchedule::new(1).quarter(), 1);
}

#[test]
fn the_filter_starts_at_the_first_band_high_enough() {
    let offsets: Vec<usize> = (0..=32).map(|b| b * 32).collect();
    let start = first_band_above(&offsets, 32, SamplingRate::Hz44100, false);
    assert!(start > 0 && start < 32);
    let range = filter_range(&offsets, 32, 32, SamplingRate::Hz44100, false, 1024).unwrap();
    assert_eq!(range.start_band, start);
    assert_eq!(range.stop_band, 32);
    assert!(filter_range(&offsets, 32, 0, SamplingRate::Hz44100, false, 1024).is_none());
}

#[test]
fn trailing_zero_coefficients_are_cut_off() {
    let offsets: Vec<usize> = (0..=32).map(|b| b * 32).collect();
    let range = filter_range(&offsets, 32, 32, SamplingRate::Hz44100, false, 1024).unwrap();
    let spec = assemble(range, false, &[3, 0, -2, 0, 0]).unwrap();
    assert_eq!(spec.order, 3);
    assert_eq!(&spec.coef[..4], &[3, 0, -2, 0]);
    assert_eq!(spec.resolution, 1);
    assert!(assemble(range, true, &[0, 0]).is_none());
}
