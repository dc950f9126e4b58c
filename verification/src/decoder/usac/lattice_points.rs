//! The points of the lattice.
//!
//! Every point that a code index names has coordinates that are all even or
//! all odd and add up to a multiple of four, and no two code indices name the
//! same point.

use crate::decoder::usac::avq;
use crate::decoder::usac::lattice;
use crate::decoder::usac::lattice_leaders;
use crate::tables::usac_avq::{
    ABSOLUTE_LEADER_TAB, ISO_CODE_DATA_TABLE, ISO_CODE_INDEX_TABLE, ISO_CODE_NUM_TABLE,
    SIGNED_LEADER_IS,
};
use vstd::prelude::*;

verus! {

pub open spec fn absolute(x: int) -> int {
    if x < 0 {
        -x
    } else {
        x
    }
}

/// The order of a template's coordinates: the larger magnitude first, and of
/// equal magnitudes the positive one.
pub open spec fn in_order(a: int, b: int) -> bool {
    absolute(a) > absolute(b) || (absolute(a) == absolute(b) && a >= b)
}

/// The sign bits of coordinates, the first one's highest.
pub open spec fn pattern(c: Seq<int>) -> int {
    (if c[0] < 0 { 128int } else { 0 }) + (if c[1] < 0 { 64int } else { 0 }) + (if c[2] < 0 {
        32int
    } else {
        0
    }) + (if c[3] < 0 { 16int } else { 0 }) + (if c[4] < 0 { 8int } else { 0 }) + (if c[5] < 0 {
        4int
    } else {
        0
    }) + (if c[6] < 0 { 2int } else { 0 }) + (if c[7] < 0 { 1int } else { 0 })
}

/// Coordinates that are all even or all odd and add up to a multiple of four.
pub open spec fn is_lattice_point(c: Seq<int>) -> bool {
    &&& c.len() == 8
    &&& forall|i: int| 0 <= i < 8 ==> (#[trigger] c[i]) % 2 == c[0] % 2
    &&& (c[0] + c[1] + c[2] + c[3] + c[4] + c[5] + c[6] + c[7]) % 4 == 0
}

/// The signed template of a leader, as integers.
pub open spec fn coordinates(idx: int, leader: int) -> Seq<int> {
    Seq::new(8, |i: int| lattice::signed_coordinate(idx, leader, i))
}

/// A leader's template is a lattice point, its coordinates are in order, and
/// its sign bits are those of the leader.
pub open spec fn is_leader(idx: int, leader: int) -> bool {
    let c = coordinates(idx, leader);
    &&& is_lattice_point(c)
    &&& is_chain(c)
    &&& ISO_CODE_DATA_TABLE[leader] == pattern(c)
    &&& forall|i: int| 0 <= i < 8 ==> -20 <= #[trigger] c[i] <= 20
}

/// A leader whose coordinates are known.
pub(crate) proof fn lemma_leader(
    idx: int,
    leader: int,
    c0: int,
    c1: int,
    c2: int,
    c3: int,
    c4: int,
    c5: int,
    c6: int,
    c7: int,
)
    requires
        lattice::signed_coordinate(idx, leader, 0) == c0,
        lattice::signed_coordinate(idx, leader, 1) == c1,
        lattice::signed_coordinate(idx, leader, 2) == c2,
        lattice::signed_coordinate(idx, leader, 3) == c3,
        lattice::signed_coordinate(idx, leader, 4) == c4,
        lattice::signed_coordinate(idx, leader, 5) == c5,
        lattice::signed_coordinate(idx, leader, 6) == c6,
        lattice::signed_coordinate(idx, leader, 7) == c7,
        c1 % 2 == c0 % 2,
        c2 % 2 == c0 % 2,
        c3 % 2 == c0 % 2,
        c4 % 2 == c0 % 2,
        c5 % 2 == c0 % 2,
        c6 % 2 == c0 % 2,
        c7 % 2 == c0 % 2,
        -20 <= c0 <= 20,
        -20 <= c1 <= 20,
        -20 <= c2 <= 20,
        -20 <= c3 <= 20,
        -20 <= c4 <= 20,
        -20 <= c5 <= 20,
        -20 <= c6 <= 20,
        -20 <= c7 <= 20,
        (c0 + c1 + c2 + c3 + c4 + c5 + c6 + c7) % 4 == 0,
        in_order(c0, c1),
        in_order(c1, c2),
        in_order(c2, c3),
        in_order(c3, c4),
        in_order(c4, c5),
        in_order(c5, c6),
        in_order(c6, c7),
        ISO_CODE_DATA_TABLE[leader] == pattern(seq![c0, c1, c2, c3, c4, c5, c6, c7]),
    ensures
        is_leader(idx, leader),
{
    assert(coordinates(idx, leader) =~= seq![c0, c1, c2, c3, c4, c5, c6, c7]);
}

/// Whether each of eight coordinates is in order with the next.
pub open spec fn is_chain(c: Seq<int>) -> bool {
    in_order(c[0], c[1]) && in_order(c[1], c[2]) && in_order(c[2], c[3]) && in_order(c[3], c[4])
        && in_order(c[4], c[5]) && in_order(c[5], c[6]) && in_order(c[6], c[7])
}

/// Every two coordinates of a chain are in order.
proof fn lemma_in_order(c: Seq<int>, i: int, j: int)
    requires
        is_chain(c),
        0 <= i <= j < 8,
    ensures
        in_order(c[i], c[j]),
    decreases j - i,
{
    if i < j {
        lemma_in_order(c, i, j - 1);
    }
}

/// The sum of a sequence.
pub open spec fn sum(s: Seq<int>) -> int
    decreases s.len(),
{
    if s.len() == 0 {
        0
    } else {
        s[0] + sum(s.drop_first())
    }
}

proof fn lemma_remove(s: Seq<int>, j: int, v: int)
    requires
        0 <= j < s.len(),
    ensures
        sum(s.remove(j)) == sum(s) - s[j],
        avq::occurrences(s.remove(j), v) == avq::occurrences(s, v) - if s[j] == v {
            1int
        } else {
            0
        },
    decreases j,
{
    if j == 0 {
        assert(s.remove(0) =~= s.drop_first());
    } else {
        lemma_remove(s.drop_first(), j - 1, v);
        assert(s.remove(j).drop_first() =~= s.drop_first().remove(j - 1));
    }
}

/// What occurs stands somewhere, and what stands somewhere occurs.
proof fn lemma_occurs(s: Seq<int>, v: int) -> (j: int)
    ensures
        avq::occurrences(s, v) >= 0,
        avq::occurrences(s, v) > 0 ==> 0 <= j < s.len() && s[j] == v,
        avq::occurrences(s, v) == 0 ==> forall|i: int| 0 <= i < s.len() ==> #[trigger] s[i] != v,
    decreases s.len(),
{
    if s.len() == 0 {
        0
    } else {
        let rest = s.drop_first();
        let j = lemma_occurs(rest, v);
        assert forall|i: int|
            avq::occurrences(s, v) == 0 && 0 <= i < s.len() implies #[trigger] s[i] != v by {
            if i > 0 {
                assert(rest[i - 1] != v);
            }
        }
        if s[0] == v {
            0
        } else {
            j + 1
        }
    }
}

/// Orderings of the same numbers have the same sum and the same length.
proof fn lemma_same_sum(x: Seq<int>, y: Seq<int>)
    requires
        forall|v: int| #[trigger] avq::occurrences(x, v) == avq::occurrences(y, v),
    ensures
        sum(x) == sum(y),
        x.len() == y.len(),
    decreases x.len(),
{
    if x.len() == 0 {
        if y.len() > 0 {
            let v = y[0];
            let _ = lemma_occurs(y, v);
            assert(avq::occurrences(x, v) == 0);
        }
    } else {
        let v = x[0];
        let _ = lemma_occurs(x, v);
        let j = lemma_occurs(y, v);
        assert(avq::occurrences(x, v) == avq::occurrences(y, v));
        let rest = x.drop_first();
        assert forall|u: int| #[trigger]
            avq::occurrences(rest, u) == avq::occurrences(y.remove(j), u) by {
            lemma_remove(y, j, u);
            assert(avq::occurrences(x, u) == avq::occurrences(y, u));
        }
        lemma_remove(y, j, v);
        lemma_same_sum(rest, y.remove(j));
    }
}

/// Two ways to put the same numbers in order are the same.
proof fn lemma_order_is_unique(x: Seq<int>, y: Seq<int>)
    requires
        forall|v: int| #[trigger] avq::occurrences(x, v) == avq::occurrences(y, v),
        forall|i: int, j: int| 0 <= i <= j < x.len() ==> in_order(#[trigger] x[i], #[trigger] x[j]),
        forall|i: int, j: int| 0 <= i <= j < y.len() ==> in_order(#[trigger] y[i], #[trigger] y[j]),
    ensures
        x == y,
    decreases x.len(),
{
    lemma_same_sum(x, y);
    if x.len() > 0 {
        let a = x[0];
        let b = y[0];
        let _ = lemma_occurs(x, a);
        let i = lemma_occurs(y, a);
        let _ = lemma_occurs(y, b);
        let j = lemma_occurs(x, b);
        assert(avq::occurrences(x, a) == avq::occurrences(y, a));
        assert(avq::occurrences(x, b) == avq::occurrences(y, b));
        assert(in_order(y[0], y[i]));
        assert(in_order(x[0], x[j]));
        assert(a == b);
        let p = x.drop_first();
        let q = y.drop_first();
        assert forall|v: int| #[trigger] avq::occurrences(p, v) == avq::occurrences(q, v) by {
            assert(avq::occurrences(x, v) == avq::occurrences(y, v));
        }
        assert forall|i: int, j: int| 0 <= i <= j < p.len() implies in_order(
            #[trigger] p[i],
            #[trigger] p[j],
        ) by {
            assert(in_order(x[i + 1], x[j + 1]));
        }
        assert forall|i: int, j: int| 0 <= i <= j < q.len() implies in_order(
            #[trigger] q[i],
            #[trigger] q[j],
        ) by {
            assert(in_order(y[i + 1], y[j + 1]));
        }
        lemma_order_is_unique(p, q);
        assert(x =~= seq![a] + p);
        assert(y =~= seq![b] + q);
    } else {
        assert(x =~= y);
    }
}

/// The magnitudes of a class in one number, which no other class has.
spec fn class_key(idx: int) -> int {
    let r = ABSOLUTE_LEADER_TAB[idx];
    10000 * r[0] + 100 * r[1] + 3 * r[2] + (r[3] + r[4] + r[5] + r[6] + r[7])
}

/// The class with a given number.
spec fn class_with(key: int) -> int {
    if key == 10108 {
        0
    } else if key == 20200 {
        1
    } else if key == 20208 {
        2
    } else if key == 30108 {
        3
    } else if key == 40000 {
        4
    } else if key == 20212 {
        5
    } else if key == 30308 {
        6
    } else if key == 40206 {
        7
    } else if key == 20216 {
        8
    } else if key == 30314 {
        9
    } else if key == 40210 {
        10
    } else if key == 40400 {
        11
    } else if key == 50108 {
        12
    } else if key == 30316 {
        13
    } else if key == 40214 {
        14
    } else if key == 40408 {
        15
    } else if key == 50308 {
        16
    } else if key == 60200 {
        17
    } else if key == 40412 {
        18
    } else if key == 60208 {
        19
    } else if key == 60406 {
        20
    } else if key == 70108 {
        21
    } else if key == 80000 {
        22
    } else if key == 60600 {
        23
    } else if key == 80206 {
        24
    } else if key == 80400 {
        25
    } else if key == 90108 {
        26
    } else if key == 100200 {
        27
    } else if key == 80800 {
        28
    } else if key == 100600 {
        29
    } else if key == 120000 {
        30
    } else if key == 120400 {
        31
    } else if key == 101000 {
        32
    } else if key == 140200 {
        33
    } else if key == 120800 {
        34
    } else if key == 160000 {
        35
    } else {
        36
    }
}

proof fn lemma_class_keys(idx: int)
    requires
        0 <= idx < 37,
    ensures
        class_with(class_key(idx)) == idx,
{
    assert(class_key(0) == 10108);
    assert(class_key(1) == 20200);
    assert(class_key(2) == 20208);
    assert(class_key(3) == 30108);
    assert(class_key(4) == 40000);
    assert(class_key(5) == 20212);
    assert(class_key(6) == 30308);
    assert(class_key(7) == 40206);
    assert(class_key(8) == 20216);
    assert(class_key(9) == 30314);
    assert(class_key(10) == 40210);
    assert(class_key(11) == 40400);
    assert(class_key(12) == 50108);
    assert(class_key(13) == 30316);
    assert(class_key(14) == 40214);
    assert(class_key(15) == 40408);
    assert(class_key(16) == 50308);
    assert(class_key(17) == 60200);
    assert(class_key(18) == 40412);
    assert(class_key(19) == 60208);
    assert(class_key(20) == 60406);
    assert(class_key(21) == 70108);
    assert(class_key(22) == 80000);
    assert(class_key(23) == 60600);
    assert(class_key(24) == 80206);
    assert(class_key(25) == 80400);
    assert(class_key(26) == 90108);
    assert(class_key(27) == 100200);
    assert(class_key(28) == 80800);
    assert(class_key(29) == 100600);
    assert(class_key(30) == 120000);
    assert(class_key(31) == 120400);
    assert(class_key(32) == 101000);
    assert(class_key(33) == 140200);
    assert(class_key(34) == 120800);
    assert(class_key(35) == 160000);
    assert(class_key(36) == 200000);
    if idx == 0 {
    } else if idx == 1 {
    } else if idx == 2 {
    } else if idx == 3 {
    } else if idx == 4 {
    } else if idx == 5 {
    } else if idx == 6 {
    } else if idx == 7 {
    } else if idx == 8 {
    } else if idx == 9 {
    } else if idx == 10 {
    } else if idx == 11 {
    } else if idx == 12 {
    } else if idx == 13 {
    } else if idx == 14 {
    } else if idx == 15 {
    } else if idx == 16 {
    } else if idx == 17 {
    } else if idx == 18 {
    } else if idx == 19 {
    } else if idx == 20 {
    } else if idx == 21 {
    } else if idx == 22 {
    } else if idx == 23 {
    } else if idx == 24 {
    } else if idx == 25 {
    } else if idx == 26 {
    } else if idx == 27 {
    } else if idx == 28 {
    } else if idx == 29 {
    } else if idx == 30 {
    } else if idx == 31 {
    } else if idx == 32 {
    } else if idx == 33 {
    } else if idx == 34 {
    } else if idx == 35 {
    } else if idx == 36 {
    }
}

proof fn lemma_bucket(table: Seq<u32>, code: int, r: int)
    requires
        0 <= r,
    ensures
        0 <= lattice::bucket(table, code, r) <= r,
    decreases r,
{
    if r > 0 {
        lemma_bucket(table, code, r - 1);
    }
}

/// The class and the leader of the point that a code index names.
proof fn lemma_leader_of(n: int, code: int)
    requires
        2 <= n <= 4,
        lattice::is_base_index(n, code),
    ensures
        ({
            let idx = lattice::leader_class(n, code);
            let leader = lattice::sign_leader(idx, code);
            &&& lattice::is_named(n, code)
            &&& 0 <= idx < 37
            &&& ISO_CODE_INDEX_TABLE[idx] <= leader < ISO_CODE_INDEX_TABLE[idx]
                + ISO_CODE_NUM_TABLE[idx]
            &&& is_leader(idx, leader)
        }),
{
    lattice::lemma_named(n, code);
    let idx = lattice::leader_class(n, code);
    let t = ISO_CODE_INDEX_TABLE[idx] as int;
    let im = ISO_CODE_NUM_TABLE[idx] as int;
    lemma_bucket(SIGNED_LEADER_IS@.subrange(t, t + im), code, im - 1);
    lattice_leaders::lemma_class(idx, lattice::sign_leader(idx, code));
}

/// The sign bits of a class's leaders grow.
proof fn lemma_patterns_grow(idx: int, a: int, b: int)
    requires
        0 <= idx < 37,
        ISO_CODE_INDEX_TABLE[idx] <= a < b < ISO_CODE_INDEX_TABLE[idx] + ISO_CODE_NUM_TABLE[idx],
    ensures
        ISO_CODE_DATA_TABLE[a] < ISO_CODE_DATA_TABLE[b],
    decreases b - a,
{
    lattice_leaders::lemma_class(idx, b);
    if a < b - 1 {
        lemma_patterns_grow(idx, a, b - 1);
    }
}

proof fn lemma_magnitude(idx: int, leader: int, i: int)
    requires
        0 <= i < 8,
    ensures
        ABSOLUTE_LEADER_TAB[idx][i] == absolute(coordinates(idx, leader)[i]),
{
}

/// No two leaders have the same template.
proof fn lemma_templates_differ(idx: int, a: int, other: int, b: int)
    requires
        0 <= idx < 37,
        0 <= other < 37,
        ISO_CODE_INDEX_TABLE[idx] <= a < ISO_CODE_INDEX_TABLE[idx] + ISO_CODE_NUM_TABLE[idx],
        ISO_CODE_INDEX_TABLE[other] <= b < ISO_CODE_INDEX_TABLE[other] + ISO_CODE_NUM_TABLE[other],
        is_leader(idx, a),
        is_leader(other, b),
        coordinates(idx, a) == coordinates(other, b),
    ensures
        idx == other,
        a == b,
{
    lemma_class_keys(idx);
    lemma_class_keys(other);
    lemma_same_key(idx, a, other, b);
    if a < b {
        lemma_patterns_grow(idx, a, b);
    } else if b < a {
        lemma_patterns_grow(idx, b, a);
    }
}

proof fn lemma_same_key(idx: int, a: int, other: int, b: int)
    requires
        coordinates(idx, a) == coordinates(other, b),
    ensures
        class_key(idx) == class_key(other),
{
    lemma_magnitude(idx, a, 0);
    lemma_magnitude(idx, a, 1);
    lemma_magnitude(idx, a, 2);
    lemma_magnitude(idx, a, 3);
    lemma_magnitude(idx, a, 4);
    lemma_magnitude(idx, a, 5);
    lemma_magnitude(idx, a, 6);
    lemma_magnitude(idx, a, 7);
    lemma_magnitude(other, b, 0);
    lemma_magnitude(other, b, 1);
    lemma_magnitude(other, b, 2);
    lemma_magnitude(other, b, 3);
    lemma_magnitude(other, b, 4);
    lemma_magnitude(other, b, 5);
    lemma_magnitude(other, b, 6);
    lemma_magnitude(other, b, 7);
}

/// Values in order fall into groups of which no two have the same value.
proof fn lemma_grouped(xs: Seq<i32>, k: nat)
    requires
        forall|i: int, j: int|
            0 <= i <= j < xs.len() ==> in_order(#[trigger] xs[i] as int, #[trigger] xs[j] as int),
        k <= xs.len(),
    ensures
        ({
            let g = avq::groups(xs, k);
            &&& k > 0 ==> g.values.len() > 0 && g.values[g.values.len() - 1] == xs[k - 1]
            &&& forall|i: int, j: int|
                0 <= i < j < g.values.len() ==> in_order(g.values[i], g.values[j]) && g.values[i]
                    != g.values[j]
        }),
    decreases k,
{
    if k > 0 {
        lemma_grouped(xs, (k - 1) as nat);
        let g = avq::groups(xs, (k - 1) as nat);
        let h = avq::groups(xs, k);
        if k >= 2 && xs[k - 1] == xs[k - 2] {
            assert(h.values == g.values);
        } else {
            assert(h.values == g.values.push(xs[k - 1] as int));
            assert forall|i: int, j: int| 0 <= i < j < h.values.len() implies in_order(
                h.values[i],
                h.values[j],
            ) && h.values[i] != h.values[j] by {
                assert(h.values[i] == g.values[i]);
                if j < g.values.len() {
                    assert(h.values[j] == g.values[j]);
                } else {
                    assert(in_order(xs[k - 2] as int, xs[k - 1] as int));
                    assert(g.values[g.values.len() - 1] == xs[k - 2]);
                    let last = g.values.len() - 1;
                    if i < last {
                        assert(in_order(g.values[i], g.values[last]));
                    }
                }
            }
        }
    }
}

proof fn lemma_sum_of_eight(c: Seq<int>)
    requires
        c.len() == 8,
    ensures
        sum(c) == c[0] + c[1] + c[2] + c[3] + c[4] + c[5] + c[6] + c[7],
{
    reveal_with_fuel(sum, 9);
}

/// What a leader's template says of the points it is permuted into.
proof fn lemma_point(idx: int, leader: int, rank: int)
    requires
        is_leader(idx, leader),
        avq::is_rank(lattice::signed_template(idx, leader), rank),
    ensures
        ({
            let point = avq::arranged(lattice::signed_template(idx, leader), rank);
            &&& is_lattice_point(point)
            &&& forall|v: int| #[trigger]
                avq::occurrences(point, v) == avq::occurrences(coordinates(idx, leader), v)
            &&& avq::is_grouped(lattice::signed_template(idx, leader))
        }),
{
    let t = lattice::signed_template(idx, leader);
    let c = coordinates(idx, leader);
    let point = avq::arranged(t, rank);
    assert forall|i: int| 0 <= i < 8 implies #[trigger] t[i] == c[i] by {
        assert(-20 <= c[i] <= 20);
    }
    assert(Seq::new(t.len(), |i: int| t[i] as int) =~= c);
    assert forall|v: int| #[trigger] avq::occurrences(point, v) == avq::occurrences(c, v) by {
        avq::law_unranked_is_a_permutation(t, rank, v);
    }
    lemma_same_sum(point, c);
    lemma_sum_of_eight(point);
    lemma_sum_of_eight(c);
    assert forall|i: int| 0 <= i < 8 implies (#[trigger] point[i]) % 2 == c[0] % 2 by {
        let v = point[i];
        let _ = lemma_occurs(point, v);
        let j = lemma_occurs(c, v);
        assert(avq::occurrences(point, v) == avq::occurrences(c, v));
        assert(c[j] % 2 == c[0] % 2);
    }
    assert(point[0] % 2 == c[0] % 2);
    assert(is_lattice_point(point));
    assert forall|i: int, j: int| 0 <= i <= j < t.len() implies in_order(
        #[trigger] t[i] as int,
        #[trigger] t[j] as int,
    ) by {
        lemma_in_order(c, i, j);
    }
    lemma_grouped(t, 8);
    let g = avq::groups(t, 8);
    assert forall|i: int, j: int| 0 <= i < j < g.values.len() implies g.values[i] != g.values[j] by {
        assert(in_order(g.values[i], g.values[j]) && g.values[i] != g.values[j]);
    }
}

/// Every code index names a point of the lattice: its coordinates are all even
/// or all odd, and add up to a multiple of four.
pub proof fn law_points_are_on_the_lattice(n: int, code: int)
    requires
        lattice::is_base_index(n, code),
    ensures
        is_lattice_point(lattice::base_point(n, code)),
{
    if n >= 2 {
        lemma_leader_of(n, code);
        let idx = lattice::leader_class(n, code);
        let leader = lattice::sign_leader(idx, code);
        lemma_point(idx, leader, code - SIGNED_LEADER_IS[leader]);
    }
}

/// With two extra bits or more, different code indices name different points.
pub proof fn law_points_are_distinct(n: int, code: int, other: int)
    requires
        2 <= n <= 4,
        lattice::is_base_index(n, code),
        lattice::is_base_index(n, other),
        lattice::base_point(n, code) == lattice::base_point(n, other),
    ensures
        code == other,
{
    lemma_leader_of(n, code);
    lemma_leader_of(n, other);
    let idx = lattice::leader_class(n, code);
    let leader = lattice::sign_leader(idx, code);
    let rank = code - SIGNED_LEADER_IS[leader];
    let idx2 = lattice::leader_class(n, other);
    let leader2 = lattice::sign_leader(idx2, other);
    let rank2 = other - SIGNED_LEADER_IS[leader2];
    lemma_point(idx, leader, rank);
    lemma_point(idx2, leader2, rank2);
    let point = lattice::base_point(n, code);
    let c = coordinates(idx, leader);
    let d = coordinates(idx2, leader2);
    assert forall|v: int| #[trigger] avq::occurrences(c, v) == avq::occurrences(d, v) by {
        assert(avq::occurrences(point, v) == avq::occurrences(c, v));
        assert(avq::occurrences(point, v) == avq::occurrences(d, v));
    }
    assert forall|i: int, j: int| 0 <= i <= j < c.len() implies in_order(
        #[trigger] c[i],
        #[trigger] c[j],
    ) by {
        lemma_in_order(c, i, j);
    }
    assert forall|i: int, j: int| 0 <= i <= j < d.len() implies in_order(
        #[trigger] d[i],
        #[trigger] d[j],
    ) by {
        lemma_in_order(d, i, j);
    }
    lemma_order_is_unique(c, d);
    lemma_templates_differ(idx, leader, idx2, leader2);
    avq::law_unranking_is_injective(lattice::signed_template(idx, leader), rank, rank2);
}

} // verus!
