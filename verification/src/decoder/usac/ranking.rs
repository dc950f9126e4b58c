//! The order of the ranks.
//!
//! [`avq::rank_of_permutation`] numbers the orderings of eight values from the
//! lexicographically greatest down, where the values come in descending.

use crate::decoder::usac::avq;
use vstd::prelude::*;
use vstd::set_lib;

verus! {

/// Whether `a` comes before `b` in the lexicographic order.
pub open spec fn precedes(a: Seq<int>, b: Seq<int>) -> bool
    decreases a.len(),
{
    a.len() > 0 && b.len() > 0 && (a[0] < b[0] || (a[0] == b[0] && precedes(
        a.drop_first(),
        b.drop_first(),
    )))
}

/// Nothing precedes itself, and of two sequences at most one precedes the
/// other.
proof fn lemma_precedes(a: Seq<int>, b: Seq<int>)
    ensures
        !precedes(a, a),
        !(precedes(a, b) && precedes(b, a)),
    decreases a.len(),
{
    if a.len() > 0 {
        lemma_precedes(a.drop_first(), b.drop_first());
    }
}

proof fn lemma_pick_range(sizes: Seq<int>, target: int, unit: int, j: int)
    requires
        0 <= j < sizes.len(),
    ensures
        j <= avq::pick(sizes, target, unit, j) < sizes.len(),
    decreases sizes.len() - j,
{
    if !(j >= sizes.len() - 1 || target < avq::below(sizes, j + 1) * unit) {
        lemma_pick_range(sizes, target, unit, j + 1);
    }
}

/// A larger target picks no earlier group.
proof fn lemma_pick_grows(sizes: Seq<int>, target: int, more: int, unit: int, j: int)
    requires
        0 <= j < sizes.len(),
        target <= more,
    ensures
        avq::pick(sizes, target, unit, j) <= avq::pick(sizes, more, unit, j),
    decreases sizes.len() - j,
{
    lemma_pick_range(sizes, more, unit, j);
    if !(j >= sizes.len() - 1 || more < avq::below(sizes, j + 1) * unit) {
        if !(target < avq::below(sizes, j + 1) * unit) {
            lemma_pick_grows(sizes, target, more, unit, j + 1);
        }
    }
}

proof fn lemma_choices_range(sizes: Seq<int>, target: int, scale: int, n: nat)
    requires
        sizes.len() >= 1,
    ensures
        avq::choices(sizes, target, scale, n).len() == n,
        forall|i: int|
            0 <= i < n ==> 0 <= #[trigger] avq::choices(sizes, target, scale, n)[i] < sizes.len(),
    decreases n,
{
    if n > 0 {
        let unit = scale * avq::factorial((n - 1) as nat);
        let j = avq::pick(sizes, target, unit, 0);
        lemma_pick_range(sizes, target, unit, 0);
        lemma_choices_range(
            sizes.update(j, sizes[j] - 1),
            target - avq::below(sizes, j) * unit,
            scale * sizes[j],
            (n - 1) as nat,
        );
    }
}

/// A larger target selects no earlier order.
proof fn lemma_choices_grow(sizes: Seq<int>, target: int, more: int, scale: int, n: nat)
    requires
        sizes.len() >= 1,
        target <= more,
    ensures
        avq::choices(sizes, target, scale, n) == avq::choices(sizes, more, scale, n) || precedes(
            avq::choices(sizes, target, scale, n),
            avq::choices(sizes, more, scale, n),
        ),
    decreases n,
{
    if n > 0 {
        let unit = scale * avq::factorial((n - 1) as nat);
        let j = avq::pick(sizes, target, unit, 0);
        let k = avq::pick(sizes, more, unit, 0);
        lemma_pick_range(sizes, target, unit, 0);
        lemma_pick_grows(sizes, target, more, unit, 0);
        let a = avq::choices(sizes, target, scale, n);
        let b = avq::choices(sizes, more, scale, n);
        if j == k {
            let rest = sizes.update(j, sizes[j] - 1);
            let off = avq::below(sizes, j) * unit;
            lemma_choices_grow(rest, target - off, more - off, scale * sizes[j], (n - 1) as nat);
            assert(a.drop_first() =~= avq::choices(
                rest,
                target - off,
                scale * sizes[j],
                (n - 1) as nat,
            ));
            assert(b.drop_first() =~= avq::choices(
                rest,
                more - off,
                scale * sizes[j],
                (n - 1) as nat,
            ));
        }
    }
}

/// The values that an order of groups stands for.
spec fn valued(values: Seq<int>, order: Seq<int>) -> Seq<int> {
    Seq::new(order.len(), |i: int| values[order[i]])
}

/// Where the values descend, an earlier order stands for a later sequence.
proof fn lemma_valued(values: Seq<int>, a: Seq<int>, b: Seq<int>)
    requires
        forall|i: int, j: int| 0 <= i < j < values.len() ==> values[i] > values[j],
        forall|i: int| 0 <= i < a.len() ==> 0 <= #[trigger] a[i] < values.len(),
        forall|i: int| 0 <= i < b.len() ==> 0 <= #[trigger] b[i] < values.len(),
        precedes(a, b),
    ensures
        precedes(valued(values, b), valued(values, a)),
    decreases a.len(),
{
    assert(0 <= a[0] < values.len());
    assert(0 <= b[0] < values.len());
    if a[0] == b[0] {
        assert forall|i: int| 0 <= i < a.drop_first().len() implies 0 <= #[trigger] a.drop_first()[i]
            < values.len() by {
            assert(a.drop_first()[i] == a[i + 1]);
        }
        assert forall|i: int| 0 <= i < b.drop_first().len() implies 0 <= #[trigger] b.drop_first()[i]
            < values.len() by {
            assert(b.drop_first()[i] == b[i + 1]);
        }
        lemma_valued(values, a.drop_first(), b.drop_first());
        assert(valued(values, a).drop_first() =~= valued(values, a.drop_first()));
        assert(valued(values, b).drop_first() =~= valued(values, b.drop_first()));
    }
}

/// Whether the values come in descending.
pub open spec fn is_descending(xs: Seq<i32>) -> bool {
    forall|i: int, j: int| 0 <= i < j < xs.len() ==> xs[i] >= xs[j]
}

proof fn lemma_groups_descend(xs: Seq<i32>, k: nat)
    requires
        is_descending(xs),
        k <= xs.len(),
    ensures
        ({
            let g = avq::groups(xs, k);
            &&& k > 0 ==> g.values.len() > 0 && g.values[g.values.len() - 1] == xs[k - 1]
            &&& forall|i: int, j: int| 0 <= i < j < g.values.len() ==> g.values[i] > g.values[j]
        }),
    decreases k,
{
    if k > 0 {
        lemma_groups_descend(xs, (k - 1) as nat);
        let g = avq::groups(xs, (k - 1) as nat);
        let h = avq::groups(xs, k);
        if k >= 2 && xs[k - 1] == xs[k - 2] {
            assert(h.values == g.values);
        } else {
            assert(h.values == g.values.push(xs[k - 1] as int));
            assert forall|i: int, j: int| 0 <= i < j < h.values.len() implies h.values[i]
                > h.values[j] by {
                assert(h.values[i] == g.values[i]);
                if j == g.values.len() {
                    assert(xs[k - 2] >= xs[k - 1]);
                    let last = g.values.len() - 1;
                    if i < last {
                        assert(g.values[i] > g.values[last]);
                    }
                }
            }
        }
    }
}

/// A lower rank produces an ordering that comes later in the lexicographic
/// order.
pub proof fn law_ranks_descend(xs: Seq<i32>, rank: int, other: int)
    requires
        xs.len() == 8,
        is_descending(xs),
        avq::is_rank(xs, rank),
        avq::is_rank(xs, other),
    ensures
        rank < other <==> precedes(avq::arranged(xs, other), avq::arranged(xs, rank)),
        avq::is_grouped(xs),
{
    let a = avq::arranged(xs, rank);
    let b = avq::arranged(xs, other);
    lemma_groups_descend(xs, 8);
    lemma_precedes(a, b);
    if rank < other {
        lemma_lower_rank(xs, rank, other);
    } else if other < rank {
        lemma_lower_rank(xs, other, rank);
    }
}

proof fn lemma_lower_rank(xs: Seq<i32>, rank: int, other: int)
    requires
        xs.len() == 8,
        is_descending(xs),
        avq::is_rank(xs, rank),
        avq::is_rank(xs, other),
        rank < other,
    ensures
        precedes(avq::arranged(xs, other), avq::arranged(xs, rank)),
{
    let g = avq::groups(xs, 8);
    let unit = avq::symmetry(g.sizes, g.sizes.len());
    lemma_groups_descend(xs, 8);
    avq::lemma_groups(xs, 8);
    avq::lemma_symmetry_positive(g.sizes, g.sizes.len());
    assert(rank * unit <= other * unit) by (nonlinear_arith)
        requires
            rank < other,
            unit >= 1,
    ;
    let p = avq::choices(g.sizes, rank * unit, 1, 8);
    let q = avq::choices(g.sizes, other * unit, 1, 8);
    lemma_choices_range(g.sizes, rank * unit, 1, 8);
    lemma_choices_range(g.sizes, other * unit, 1, 8);
    lemma_choices_grow(g.sizes, rank * unit, other * unit, 1, 8);
    assert(avq::arranged(xs, rank) =~= valued(g.values, p));
    assert(avq::arranged(xs, other) =~= valued(g.values, q));
    if p == q {
        avq::law_unranking_is_injective(xs, rank, other);
    }
    lemma_valued(g.values, p, q);
}

/// Whether `ys` is an ordering of `xs`.
pub open spec fn is_ordering(xs: Seq<i32>, ys: Seq<int>) -> bool {
    &&& ys.len() == xs.len()
    &&& forall|v: int| #[trigger]
        avq::occurrences(ys, v) == avq::occurrences(Seq::new(xs.len(), |i: int| xs[i] as int), v)
}

/// The orderings that are lexicographically greater than the one that a rank
/// produces.
pub open spec fn greater(xs: Seq<i32>, rank: int) -> Set<Seq<int>> {
    Set::new(|ys: Seq<int>| is_ordering(xs, ys) && precedes(avq::arranged(xs, rank), ys))
}

/// A rank says how many of the distinct orderings are lexicographically
/// greater than the one it produces.
pub proof fn law_rank_counts_the_greater(xs: Seq<i32>, rank: int)
    requires
        xs.len() == 8,
        is_descending(xs),
        avq::is_rank(xs, rank),
    ensures
        greater(xs, rank).finite(),
        greater(xs, rank).len() == rank,
{
    let f = |r: int| avq::arranged(xs, r);
    let lower = set_lib::set_int_range(0, rank);
    let g = avq::groups(xs, 8);
    let unit = avq::symmetry(g.sizes, g.sizes.len());
    avq::lemma_groups(xs, 8);
    avq::lemma_symmetry_positive(g.sizes, g.sizes.len());
    law_ranks_descend(xs, rank, rank);
    assert forall|r: int| 0 <= r < rank implies avq::is_rank(xs, r) by {
        assert(r * unit <= rank * unit) by (nonlinear_arith)
            requires
                r < rank,
                unit >= 1,
        ;
    }
    set_lib::lemma_int_range(0, rank);
    assert(vstd::relations::injective_on(f, lower)) by {
        assert forall|r: int, t: int|
            lower.contains(r) && lower.contains(t) && #[trigger] f(r) == #[trigger] f(t)
            implies r == t by {
            avq::law_unranking_is_injective(xs, r, t);
        }
    }
    assert(lower.map(f) =~= greater(xs, rank)) by {
        assert forall|ys: Seq<int>| lower.map(f).contains(ys) <==> #[trigger] greater(
            xs,
            rank,
        ).contains(ys) by {
            if lower.map(f).contains(ys) {
                let r = choose|r: int| lower.contains(r) && #[trigger] f(r) == ys;
                law_ranks_descend(xs, r, rank);
                assert forall|v: int| #[trigger]
                    avq::occurrences(ys, v) == avq::occurrences(
                        Seq::new(xs.len(), |i: int| xs[i] as int),
                        v,
                    ) by {
                    avq::law_unranked_is_a_permutation(xs, r, v);
                }
            }
            if greater(xs, rank).contains(ys) {
                avq::law_unranking_is_surjective(xs, ys);
                let r = choose|r: int| avq::is_rank(xs, r) && #[trigger] avq::arranged(xs, r) == ys;
                law_ranks_descend(xs, r, rank);
                assert(lower.contains(r));
                assert(f(r) == ys);
            }
        }
    }
    set_lib::lemma_map_size(lower, greater(xs, rank), f);
}

} // verus!
