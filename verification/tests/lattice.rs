//! Lattice points.

use std::collections::HashSet;
use vuiocodecaac::decoder::usac::avq::rank_of_permutation;
use vuiocodecaac::decoder::usac::lattice::{decode_base_index, rotated_gosset_mtx_dec};
use vuiocodecaac::error::Error;
use vuiocodecaac::tables::usac_avq::{
    ABSOLUTE_LEADER_TAB, CARDINALITY_OFFSET_TABLE_I3, CARDINALITY_OFFSET_TAB_I4,
};

/// The two smallest counts name nothing but the zero point.
#[test]
fn n_below_2_always_decodes_to_the_zero_point() {
    assert_eq!(decode_base_index(0, 0), [0; 8]);
    assert_eq!(decode_base_index(1, 12345), [0; 8]);
}

/// Every rank must produce a distinct output, and every output must be some
/// permutation of the input multiset.
#[test]
fn rank_of_permutation_is_a_bijection_over_a_synthetic_multiset() {
    // [3, 1, 1, 1, 1, 1, 1, 1] has 8!/7! = 8 distinct permutations.
    let template = [3, 1, 1, 1, 1, 1, 1, 1];
    let mut seen = HashSet::new();
    for rank in 0..8 {
        let mut xs = template;
        rank_of_permutation(rank, &mut xs);
        let mut sorted = xs;
        sorted.sort_unstable();
        let mut want_sorted = template;
        want_sorted.sort_unstable();
        assert_eq!(sorted, want_sorted, "rank {rank} is not a permutation of the input");
        assert!(seen.insert(xs), "rank {rank} collided with an earlier rank: {xs:?}");
    }
}

/// The same check on a multiset with a repeated non-trivial value: `[2, 2,
/// 1, 1, 1, 1, 1, 1]` has 8!/(2!6!) = 28 distinct permutations.
#[test]
fn rank_of_permutation_handles_repeated_values_correctly() {
    let template = [2, 2, 1, 1, 1, 1, 1, 1];
    let mut seen = HashSet::new();
    for rank in 0..28 {
        let mut xs = template;
        rank_of_permutation(rank, &mut xs);
        seen.insert(xs);
    }
    assert_eq!(seen.len(), 28, "expected all 28 distinct permutations to be reachable");
}

/// An all-equal multiset must decode to itself regardless of rank: there is
/// only one permutation.
#[test]
fn an_all_equal_template_ignores_the_rank() {
    for rank in [0i64, 1, 100] {
        let mut xs = [1i32; 8];
        rank_of_permutation(rank, &mut xs);
        assert_eq!(xs, [1; 8]);
    }
}

/// Every decoded base-index point must be a signed permutation of a real
/// leader: same multiset of absolute values. This is checked across every
/// class's full index range rather than a few samples.
#[test]
fn every_decoded_point_is_a_signed_permutation_of_a_real_leader_row() {
    let rows: HashSet<Vec<i32>> = ABSOLUTE_LEADER_TAB
        .iter()
        .map(|row| {
            let mut sorted: Vec<i32> = row.iter().map(|&v| v as i32).collect();
            sorted.sort_unstable();
            sorted
        })
        .collect();
    for n in [2, 3, 4] {
        let top = if n == 4 {
            *CARDINALITY_OFFSET_TAB_I4.last().unwrap()
        } else {
            *CARDINALITY_OFFSET_TABLE_I3.last().unwrap()
        };
        for code in 0..top {
            let y = decode_base_index(n, code);
            let mut abs_sorted: Vec<i32> = y.iter().map(|v| v.abs()).collect();
            abs_sorted.sort_unstable();
            assert!(rows.contains(&abs_sorted), "n={n} code={code}: {y:?} matches no leader row");
        }
    }
}

/// Counts up to four dispatch to the base decode; more are refused outright
/// rather than silently returning a wrong point.
#[test]
fn dispatch_refuses_qn_above_four_rather_than_guessing() {
    let kv = [0i32; 8];
    assert!(rotated_gosset_mtx_dec(4, 0, &kv).is_ok());
    assert!(matches!(rotated_gosset_mtx_dec(5, 0, &kv), Err(Error::Unimplemented { .. })));
}

#[test]
fn distinct_indices_name_distinct_points() {
    let mut seen = HashSet::new();
    for code in 0..*CARDINALITY_OFFSET_TABLE_I3.last().unwrap() {
        assert!(seen.insert(decode_base_index(3, code)), "index {code} names a point twice");
    }
}

/// Coordinates are all even or all odd, add up to a multiple of four, and no
/// two indices name the same point.
#[test]
fn every_index_names_its_own_lattice_point() {
    for (n, count) in [(2, 4096u32), (3, 4096), (4, 65_536)] {
        let mut seen = HashSet::new();
        for index in 0..count {
            let point = decode_base_index(n, index);
            let parity = point[0] & 1;
            assert!(point.iter().all(|c| c & 1 == parity), "{n} {index}: {point:?}");
            assert_eq!(point.iter().sum::<i32>() % 4, 0, "{n} {index}: {point:?}");
            assert!(seen.insert(point), "{n} {index} names {point:?} again");
        }
    }
}

/// Ranks count down from the lexicographically greatest ordering.
#[test]
fn a_rank_counts_the_greater_orderings() {
    let template = [3, 3, 1, 1, 1, 0, 0, 0];
    let mut last: Option<[i32; 8]> = None;
    for rank in 0..560 {
        let mut xs = template;
        rank_of_permutation(rank, &mut xs);
        if let Some(before) = last {
            assert!(xs < before, "rank {rank}: {xs:?} is not below {before:?}");
        } else {
            assert_eq!(xs, template);
        }
        last = Some(xs);
    }
    assert_eq!(last, Some([0, 0, 0, 1, 1, 1, 3, 3]));
}
