//! Points of the base RE8 lattice and the code indices that name them.

use crate::decoder::usac::avq;
use crate::decoder::usac::avq::{get_abs_leader_tbl, rank_of_permutation};
use crate::decoder::usac::lattice_blocks;
use crate::error::{Error, ErrorView, Result};
use crate::tables::usac_avq::{
    ABSOLUTE_LEADER_TAB, CARDINALITY_OFFSET_TABLE_I3, CARDINALITY_OFFSET_TAB_I4,
    ISO_CODE_DATA_TABLE, ISO_CODE_INDEX_TABLE, ISO_CODE_NUM_TABLE, POS_ABS_LEADERS_A3,
    POS_ABS_LEADERS_A4, POW2_TABLE, SIGNED_LEADER_IS,
};
use vstd::arithmetic::power2::*;
use vstd::prelude::*;

verus! {

/// The bucket that a code index falls into: the last of the first `r + 1`
/// entries that is not above it.
pub open spec fn bucket(table: Seq<u32>, code: int, r: int) -> int
    decreases r,
{
    if r <= 0 || table[r] <= code {
        r
    } else {
        bucket(table, code, r - 1)
    }
}

/// The first code index that does not name a point, for two and three or for
/// four extra bits.
pub open spec fn code_limit(n: int) -> int {
    if n == 4 {
        65536
    } else {
        4096
    }
}

/// The class of the point that a code index names.
pub open spec fn leader_class(n: int, code: int) -> int {
    if n == 4 {
        POS_ABS_LEADERS_A4[bucket(CARDINALITY_OFFSET_TAB_I4@, code, 27)] as int
    } else {
        POS_ABS_LEADERS_A3[bucket(CARDINALITY_OFFSET_TABLE_I3@, code, 8)] as int
    }
}

/// The sign leader of the point that a code index names, where it is of the
/// class `idx`.
pub open spec fn sign_leader(idx: int, code: int) -> int {
    let t = ISO_CODE_INDEX_TABLE[idx] as int;
    let im = ISO_CODE_NUM_TABLE[idx] as int;
    t + bucket(SIGNED_LEADER_IS@.subrange(t, t + im), code, im - 1)
}

/// Coordinate `i` of a class's template under a sign pattern.
pub open spec fn signed_coordinate(idx: int, leader: int, i: int) -> int {
    let v = ABSOLUTE_LEADER_TAB[idx][i] as int;
    if (ISO_CODE_DATA_TABLE[leader] as int / POW2_TABLE[i] as int) % 2 == 1 {
        -v
    } else {
        v
    }
}

/// A class's template under a sign pattern.
pub open spec fn signed_template(idx: int, leader: int) -> Seq<i32> {
    Seq::new(8, |i: int| signed_coordinate(idx, leader, i) as i32)
}

/// `s * r` for a small `r`.
pub open spec fn scaled(s: int, r: int) -> int {
    if r == 1 {
        s
    } else if r == 2 {
        2 * s
    } else if r == 3 {
        3 * s
    } else if r == 4 {
        4 * s
    } else if r == 5 {
        5 * s
    } else if r == 6 {
        6 * s
    } else if r == 7 {
        7 * s
    } else {
        8 * s
    }
}

/// The length of the run that ends at coordinate `k - 1`, and the product of
/// all run lengths so far.
pub open spec fn running(idx: int, leader: int, k: nat) -> (int, int)
    decreases k,
{
    if k <= 1 {
        (1, 1)
    } else {
        let (run, product) = running(idx, leader, (k - 1) as nat);
        if signed_coordinate(idx, leader, k - 1) == signed_coordinate(idx, leader, k - 2) {
            (run + 1, scaled(product, run + 1))
        } else {
            (1, product)
        }
    }
}

pub open spec fn is_ascending(table: Seq<u32>) -> bool {
    forall|i: int, j: int| 0 <= i < j < table.len() ==> table[i] <= table[j]
}

/// A table is ascending where each entry is followed by none below it.
pub(crate) proof fn lemma_ascending(table: Seq<u32>)
    requires
        forall|i: int| 0 <= i < table.len() - 1 ==> #[trigger] table[i] <= table[i + 1],
    ensures
        is_ascending(table),
{
    assert forall|i: int, j: int| 0 <= i < j < table.len() implies table[i] <= table[j] by {
        lemma_ascending_step(table, i, j);
    }
}

proof fn lemma_ascending_step(table: Seq<u32>, i: int, j: int)
    requires
        0 <= i <= j < table.len(),
        forall|k: int| 0 <= k < table.len() - 1 ==> #[trigger] table[k] <= table[k + 1],
    ensures
        table[i] <= table[j],
    decreases j - i,
{
    if i < j {
        lemma_ascending_step(table, i, j - 1);
        assert(table[j - 1] <= table[j - 1 + 1]);
    }
}

/// The product of the run lengths is the symmetry of the groups.
proof fn lemma_running(idx: int, leader: int, k: nat)
    requires
        1 <= k <= 8,
    ensures
        ({
            let t = signed_template(idx, leader);
            let g = avq::groups(t, k);
            let (run, product) = running(idx, leader, k);
            &&& g.sizes.len() >= 1
            &&& run == g.sizes[g.sizes.len() - 1]
            &&& product == avq::symmetry(g.sizes, g.sizes.len())
            &&& 1 <= run <= k
        }),
    decreases k,
{
    let t = signed_template(idx, leader);
    reveal_with_fuel(avq::groups, 2);
    reveal_with_fuel(avq::symmetry, 2);
    reveal_with_fuel(avq::factorial, 2);
    avq::lemma_groups(t, k);
    if k > 1 {
        let j = (k - 1) as nat;
        lemma_running(idx, leader, j);
        avq::lemma_groups_symmetry(t, k);
        let (run, product) = running(idx, leader, j);
        assert(scaled(product, run + 1) == product * (run + 1)) by (nonlinear_arith)
            requires
                1 <= run + 1 <= 8,
                scaled(product, run + 1) == if run + 1 == 1 {
                    product
                } else if run + 1 == 2 {
                    2 * product
                } else if run + 1 == 3 {
                    3 * product
                } else if run + 1 == 4 {
                    4 * product
                } else if run + 1 == 5 {
                    5 * product
                } else if run + 1 == 6 {
                    6 * product
                } else if run + 1 == 7 {
                    7 * product
                } else {
                    8 * product
                },
        ;
        assert(t[k - 1] == t[k - 2] <==> signed_coordinate(idx, leader, k - 1)
            == signed_coordinate(idx, leader, k - 2));
        let sym = avq::symmetry(avq::groups(t, j).sizes, avq::groups(t, j).sizes.len());
        assert(sym * 1 == sym);
    }
}

/// Whether a code index names a permutation of the template of `leader`.
pub open spec fn names_permutation(idx: int, leader: int, code: int) -> bool {
    avq::is_rank(signed_template(idx, leader), code - SIGNED_LEADER_IS[leader])
}

/// Whether the tables lead from a code index to a permutation of a template.
pub open spec fn is_named(n: int, code: int) -> bool {
    let idx = leader_class(n, code);
    let t = ISO_CODE_INDEX_TABLE[idx] as int;
    let im = ISO_CODE_NUM_TABLE[idx] as int;
    &&& 0 <= idx < 37
    &&& 0 <= t < t + im <= 226
    &&& im >= 2
    &&& is_ascending(SIGNED_LEADER_IS@.subrange(t, t + im))
    &&& SIGNED_LEADER_IS[t] <= code
    &&& names_permutation(idx, sign_leader(idx, code), code)
}

/// A code index of the block that starts at `start` and has as many entries as
/// its template has permutations names one of them.
pub(crate) proof fn lemma_block(idx: int, leader: int, start: int, product: int, code: int)
    requires
        SIGNED_LEADER_IS[leader] == start,
        running(idx, leader, 8).1 == product,
        start <= code,
        (code - start) * product < 40320,
    ensures
        names_permutation(idx, leader, code),
{
    lemma_running(idx, leader, 8);
}

/// The bucket that was searched for is the one whose entries enclose the code
/// index.
proof fn lemma_bucket(table: Seq<u32>, code: int, r: int)
    requires
        0 <= r < table.len(),
        table[0] <= code,
        forall|i: int, j: int| 0 <= i < j < table.len() ==> table[i] <= table[j],
        forall|i: int| r < i < table.len() ==> code < table[i],
    ensures
        0 <= bucket(table, code, r) <= r,
        table[bucket(table, code, r)] <= code,
        forall|i: int| bucket(table, code, r) < i < table.len() ==> code < table[i],
    decreases r,
{
    if r > 0 && table[r] > code {
        lemma_bucket(table, code, r - 1);
    }
}

proof fn lemma_bucket_unique(table: Seq<u32>, code: int, r: int, found: int)
    requires
        0 <= found <= r < table.len(),
        table[found] <= code,
        forall|i: int| found < i < table.len() ==> code < table[i],
    ensures
        bucket(table, code, r) == found,
    decreases r,
{
    if r > found {
        lemma_bucket_unique(table, code, r - 1, found);
    }
}

/// The point that a code index names: nothing but zeros below two extra bits,
/// else the permutation of the signed template that the rest of the index
/// selects.
pub open spec fn base_point(n: int, code: int) -> Seq<int> {
    if n < 2 {
        Seq::new(8, |i: int| 0int)
    } else {
        let idx = leader_class(n, code);
        let leader = sign_leader(idx, code);
        avq::arranged(signed_template(idx, leader), code - SIGNED_LEADER_IS[leader])
    }
}

/// Whether a code index is one that names a point.
pub open spec fn is_base_index(n: int, code: int) -> bool {
    n < 2 || (n <= 4 && 0 <= code < code_limit(n))
}

pub(crate) proof fn lemma_named(n: int, code: int)
    requires
        2 <= n <= 4,
        is_base_index(n, code),
    ensures
        is_named(n, code),
        n == 4 ==> is_ascending(CARDINALITY_OFFSET_TAB_I4@) && CARDINALITY_OFFSET_TAB_I4[0] == 0,
        n < 4 ==> is_ascending(CARDINALITY_OFFSET_TABLE_I3@) && CARDINALITY_OFFSET_TABLE_I3[0] == 0,
{
    if n == 4 {
        lattice_blocks::lemma_four(code);
    } else {
        lattice_blocks::lemma_three(code);
        assert(leader_class(n, code) == leader_class(3, code));
    }
}

/// The signed template of a class.
fn template(idx: usize, leader: usize) -> (r: [i32; 8])
    requires
        idx < 37,
        leader < 226,
    ensures
        r@ == signed_template(idx as int, leader as int),
{
    let mut ya: [i32; 8] = [0i32;8];
    let code: i32 = ISO_CODE_DATA_TABLE[leader] as i32;
    let mut i: usize = 0;
    while i < 8
        invariant
            i <= 8,
            idx < 37,
            leader < 226,
            ya@.len() == 8,
            code == ISO_CODE_DATA_TABLE[leader as int],
            forall|k: int|
                0 <= k < i ==> #[trigger] ya@[k] == signed_coordinate(
                    idx as int,
                    leader as int,
                    k,
                ) as i32,
        decreases 8 - i,
    {
        let v: i32 = ABSOLUTE_LEADER_TAB[idx][i] as i32;
        let weight: i32 = POW2_TABLE[i];
        assert(weight > 0);
        ya[i] = if code / weight % 2 == 1 {
            -v
        } else {
            v
        };
        i += 1;
    }
    assert(ya@ =~= signed_template(idx as int, leader as int));
    ya
}

/// Decode a base RE8 point: `n` is the reduced pulse count (2, 3 or 4; 0 and 1
/// both mean "the zero point"), and `code_book_ind` is the transmitted index
/// within that count's index space.
///
/// The three steps mirror the three things the index space is built from,
/// outermost first: which absolute leader class, then which sign pattern within
/// that class, then which permutation of the signed template the remainder of
/// the index names.
pub fn decode_base_index(n: i32, code_book_ind: u32) -> (r: [i32; 8])
    requires
        is_base_index(n as int, code_book_ind as int),
    ensures
        Seq::new(8, |i: int| r@[i] as int) == base_point(n as int, code_book_ind as int),
{
    if n < 2 {
        let zero: [i32; 8] = [0i32;8];
        assert(Seq::new(8, |i: int| zero@[i] as int) =~= base_point(
            n as int,
            code_book_ind as int,
        ));
        return zero;
    }
    let ghost code = code_book_ind as int;
    proof {
        lemma_named(n as int, code);
    }
    let idx: usize = if n == 4 {
        let i: usize = get_abs_leader_tbl(CARDINALITY_OFFSET_TAB_I4.as_slice(), code_book_ind);
        proof {
            lemma_bucket_unique(CARDINALITY_OFFSET_TAB_I4@, code, 27, i as int);
        }
        POS_ABS_LEADERS_A4[i]
    } else {
        let i: usize = get_abs_leader_tbl(CARDINALITY_OFFSET_TABLE_I3.as_slice(), code_book_ind);
        proof {
            lemma_bucket_unique(CARDINALITY_OFFSET_TABLE_I3@, code, 8, i as int);
        }
        POS_ABS_LEADERS_A3[i]
    };
    let t: usize = ISO_CODE_INDEX_TABLE[idx];
    let im: usize = ISO_CODE_NUM_TABLE[idx];
    let ghost starts = SIGNED_LEADER_IS@.subrange(t as int, t + im);
    let ks: usize = get_abs_leader_tbl(
        vstd::slice::slice_subrange(SIGNED_LEADER_IS.as_slice(), t, t + im),
        code_book_ind,
    );
    proof {
        lemma_bucket_unique(starts, code, im - 1, ks as int);
    }
    let leader: usize = t + ks;
    let mut ya: [i32; 8] = template(idx, leader);
    let rank: i64 = code_book_ind as i64 - SIGNED_LEADER_IS[leader] as i64;
    rank_of_permutation(rank, &mut ya);
    ya
}

/// What the extension for large residuals is refused with.
pub open spec fn no_extension() -> ErrorView {
    ErrorView::Unimplemented {
        tool: "RE8 lattice Voronoi extension (qn > 4)"@,
        detail: "only the base lattice is decoded"@,
    }
}

/// Decode one transmitted algebraic-vector index into its 8-dimensional
/// lattice point.
///
/// `qn` is the pulse-count parameter the bitstream carries alongside the
/// index; `_kv` is the accompanying per-dimension sub-index that an extension
/// for `qn > 4` needs, and is not read for `qn <= 4`.
pub fn rotated_gosset_mtx_dec(qn: i32, code_book_idx: u32, _kv: &[i32; 8]) -> (r: Result<[i32; 8]>)
    requires
        qn <= 4 ==> is_base_index(qn as int, code_book_idx as int),
    ensures
        match r {
            Ok(y) => qn <= 4 && Seq::new(8, |i: int| y@[i] as int) == base_point(
                qn as int,
                code_book_idx as int,
            ),
            Err(e) => qn > 4 && e@ == no_extension(),
        },
{
    if qn <= 4 {
        Ok(decode_base_index(qn, code_book_idx))
    } else {
        Err(
            Error::Unimplemented {
                tool: "RE8 lattice Voronoi extension (qn > 4)",
                detail: "only the base lattice is decoded",
            },
        )
    }
}

/// The magnitudes of a point's coordinates.
pub open spec fn magnitudes(s: Seq<int>) -> Seq<int> {
    Seq::new(
        s.len(),
        |i: int|
            if s[i] < 0 {
                -s[i]
            } else {
                s[i]
            },
    )
}

proof fn lemma_magnitudes(s: Seq<int>, v: int)
    requires
        v >= 0,
    ensures
        avq::occurrences(magnitudes(s), v) == avq::occurrences(s, v) + if v > 0 {
            avq::occurrences(s, -v)
        } else {
            0
        },
    decreases s.len(),
{
    if s.len() > 0 {
        lemma_magnitudes(s.drop_first(), v);
        assert(magnitudes(s).drop_first() =~= magnitudes(s.drop_first()));
    }
}

/// Every code index with two extra bits or more names a signed permutation of
/// the template of a leader class: the point's coordinates have the magnitudes
/// of the template, each as often.
pub proof fn law_points_are_signed_permutations(n: int, code: int, v: int)
    requires
        2 <= n <= 4,
        is_base_index(n, code),
        v >= 0,
    ensures
        0 <= leader_class(n, code) < 37,
        avq::occurrences(magnitudes(base_point(n, code)), v) == avq::occurrences(
            Seq::new(8, |i: int| ABSOLUTE_LEADER_TAB[leader_class(n, code)][i] as int),
            v,
        ),
{
    lemma_named(n, code);
    let idx = leader_class(n, code);
    let leader = sign_leader(idx, code);
    let t = signed_template(idx, leader);
    let rank = code - SIGNED_LEADER_IS[leader];
    let point = base_point(n, code);
    let ints = Seq::new(t.len(), |i: int| t[i] as int);
    avq::law_unranked_is_a_permutation(t, rank, v);
    avq::law_unranked_is_a_permutation(t, rank, -v);
    lemma_magnitudes(point, v);
    lemma_magnitudes(ints, v);
    let row = Seq::new(8, |i: int| ABSOLUTE_LEADER_TAB[idx][i] as int);
    assert forall|i: int| 0 <= i < 8 implies #[trigger] magnitudes(ints)[i] == row[i] by {
        assert(t[i] == signed_coordinate(idx, leader, i));
    }
    assert(magnitudes(ints) =~= row);
}

/// A coordinate of a template takes the sign that its bit of the pattern says,
/// the first coordinate that of the highest of eight bits.
pub proof fn law_signs_of_a_template(idx: int, leader: int, i: int)
    requires
        0 <= idx < 37,
        0 <= leader < 226,
        0 <= i < 8,
    ensures
        ({
            let v = ABSOLUTE_LEADER_TAB[idx][i] as int;
            let bit = (ISO_CODE_DATA_TABLE[leader] as int / pow2((7 - i) as nat) as int) % 2;
            signed_coordinate(idx, leader, i) == v - 2 * (v * bit)
        }),
{
    lemma2_to64();
    assert(POW2_TABLE[i] == pow2((7 - i) as nat)) by {
        assert(i == 0 || i == 1 || i == 2 || i == 3 || i == 4 || i == 5 || i == 6 || i == 7);
        assert(POW2_TABLE[0] == 128 && POW2_TABLE[1] == 64 && POW2_TABLE[2] == 32 && POW2_TABLE[3]
            == 16);
        assert(POW2_TABLE[4] == 8 && POW2_TABLE[5] == 4 && POW2_TABLE[6] == 2 && POW2_TABLE[7]
            == 1);
    }
    let v = ABSOLUTE_LEADER_TAB[idx][i] as int;
    let bit = (ISO_CODE_DATA_TABLE[leader] as int / pow2((7 - i) as nat) as int) % 2;
    assert(v * bit == if bit == 1 {
        v
    } else {
        0
    }) by (nonlinear_arith)
        requires
            bit == 0 || bit == 1,
    ;
}

/// The bucket of a code index starts at the index or below it, and the next
/// one starts above.
pub proof fn law_bucket(table: Seq<u32>, code: int)
    requires
        table.len() >= 1,
        table[0] <= code,
        is_ascending(table),
    ensures
        ({
            let b = bucket(table, code, table.len() - 1);
            &&& 0 <= b < table.len()
            &&& table[b] <= code
            &&& b + 1 < table.len() ==> code < table[b + 1]
        }),
{
    lemma_bucket(table, code, table.len() - 1);
}

/// Below two extra bits the point is the origin.
pub proof fn law_origin(n: int, code: int, i: int)
    requires
        n < 2,
        0 <= i < 8,
    ensures
        base_point(n, code).len() == 8,
        base_point(n, code)[i] == 0,
{
}

/// Two and three extra bits share the code indices of twelve bits, four have
/// those of sixteen. Below two any index stands for the origin.
pub proof fn law_code_indices(n: int, code: int)
    ensures
        is_base_index(4, code) <==> 0 <= code < pow2(16),
        is_base_index(3, code) <==> 0 <= code < pow2(12),
        is_base_index(2, code) <==> 0 <= code < pow2(12),
        n < 2 ==> is_base_index(n, code),
        n > 4 ==> !is_base_index(n, code),
{
    lemma2_to64();
}

} // verus!
