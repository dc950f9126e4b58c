//! RE8 (Gosset) lattice vector decoding: transmitted index in, 8-dimensional
//! lattice point out.
//!
//! See [`crate::tables::usac_avq`] for the algorithm in plain terms (absolute
//! leader classes, sign leaders, permutation ranking). Every index with at most
//! four extra bits names a point of the base lattice; the extension for
//! residuals too large for it is refused.

use crate::tables::usac_avq::FACTORIAL_TABLE;
use vstd::prelude::*;

pub use crate::decoder::usac::lattice::{decode_base_index, rotated_gosset_mtx_dec};

verus! {

/// Find the bucket a code index falls into within a table of index-space
/// boundaries: the largest `i` such that `table[i] <= code_book_ind`, searched
/// four entries at a time.
pub fn get_abs_leader_tbl(table: &[u32], code_book_ind: u32) -> (r: usize)
    requires
        2 <= table@.len() <= 1000,
        table@[0] <= code_book_ind,
        forall|i: int, j: int| 0 <= i < j < table@.len() ==> table@[i] <= table@[j],
    ensures
        r < table@.len(),
        table@[r as int] <= code_book_ind,
        forall|i: int| r < i < table@.len() ==> code_book_ind < table@[i],
{
    let size: usize = table.len();
    let mut i: usize = 4;
    while i < size && table[i] <= code_book_ind
        invariant
            4 <= i <= size + 3,
            size == table@.len(),
            2 <= size <= 1000,
            i - 4 < size,
            table@[i - 4] <= code_book_ind,
        decreases size + 4 - i,
    {
        i += 4;
    }
    if i > size {
        i = size;
    }
    if code_book_ind < table[i - 2] {
        i -= 2;
    }
    if code_book_ind < table[i - 1] {
        i -= 1;
    }
    i - 1
}

pub open spec fn factorial(n: nat) -> int
    decreases n,
{
    if n == 0 {
        1
    } else {
        n * factorial((n - 1) as nat)
    }
}

/// The values of a multiset, grouped, and how often each occurs.
#[verifier::ext_equal]
pub struct Groups {
    pub values: Seq<int>,
    pub sizes: Seq<int>,
}

/// The runs of equal values among the first `k` entries.
pub open spec fn groups(xs: Seq<i32>, k: nat) -> Groups
    decreases k,
{
    if k == 0 {
        Groups { values: Seq::empty(), sizes: Seq::empty() }
    } else {
        let g = groups(xs, (k - 1) as nat);
        let last = g.sizes.len() - 1;
        if k >= 2 && xs[k - 1] == xs[k - 2] {
            Groups { values: g.values, sizes: g.sizes.update(last, g.sizes[last] + 1) }
        } else {
            Groups { values: g.values.push(xs[k - 1] as int), sizes: g.sizes.push(1) }
        }
    }
}

/// The product of the factorials of the first `k` sizes.
pub open spec fn symmetry(sizes: Seq<int>, k: nat) -> int
    decreases k,
{
    if k == 0 {
        1
    } else {
        symmetry(sizes, (k - 1) as nat) * factorial(sizes[k - 1] as nat)
    }
}

/// The number of entries in the first `j` groups.
pub open spec fn below(sizes: Seq<int>, j: int) -> int
    decreases j,
{
    if j <= 0 {
        0
    } else {
        below(sizes, j - 1) + sizes[j - 1]
    }
}

/// The first group from `j` on at whose end `target` falls short of `unit` for
/// each entry up to there.
pub open spec fn pick(sizes: Seq<int>, target: int, unit: int, j: int) -> int
    decreases sizes.len() - j,
{
    if j >= sizes.len() - 1 || target < below(sizes, j + 1) * unit {
        j
    } else {
        pick(sizes, target, unit, j + 1)
    }
}

/// The groups that the entries of an arrangement come from, one after the
/// other: of `n` entries left, each group of `sizes[j]` starts `sizes[j]` parts
/// out of `n` of what is left of `target`, on a scale that grows with every
/// group that is taken from.
pub open spec fn choices(sizes: Seq<int>, target: int, scale: int, n: nat) -> Seq<int>
    decreases n,
{
    if n == 0 {
        Seq::empty()
    } else {
        let unit = scale * factorial((n - 1) as nat);
        let j = pick(sizes, target, unit, 0);
        seq![j] + choices(
            sizes.update(j, sizes[j] - 1),
            target - below(sizes, j) * unit,
            scale * sizes[j],
            (n - 1) as nat,
        )
    }
}

/// The arrangement of a multiset of eight that `rank` names.
pub open spec fn arranged(xs: Seq<i32>, rank: int) -> Seq<int> {
    let g = groups(xs, 8);
    let order = choices(g.sizes, rank * symmetry(g.sizes, g.sizes.len()), 1, 8);
    Seq::new(8, |i: int| g.values[order[i]])
}

/// Whether `rank` names an arrangement: there are `8!` divided by what leaves
/// an arrangement as it is.
pub open spec fn is_rank(xs: Seq<i32>, rank: int) -> bool {
    let g = groups(xs, 8);
    0 <= rank && rank * symmetry(g.sizes, g.sizes.len()) < 40320
}

/// Sizes that are not negative and add up to `n`.
pub open spec fn is_multiset(sizes: Seq<int>, n: int) -> bool {
    &&& sizes.len() >= 1
    &&& forall|i: int| 0 <= i < sizes.len() ==> 0 <= #[trigger] sizes[i]
    &&& below(sizes, sizes.len() as int) == n
}

proof fn lemma_below_prefix(s: Seq<int>, t: Seq<int>, j: int)
    requires
        0 <= j <= s.len(),
        j <= t.len(),
        forall|i: int| 0 <= i < j ==> s[i] == t[i],
    ensures
        below(s, j) == below(t, j),
    decreases j,
{
    if j > 0 {
        lemma_below_prefix(s, t, j - 1);
    }
}

proof fn lemma_below_update(s: Seq<int>, at: int, x: int, j: int)
    requires
        0 <= at < s.len(),
        0 <= j <= s.len(),
    ensures
        below(s.update(at, x), j) == below(s, j) + if at < j {
            x - s[at]
        } else {
            0
        },
    decreases j,
{
    if j > 0 {
        lemma_below_update(s, at, x, j - 1);
    }
}

/// The entries of some groups are no more than those of more groups.
proof fn lemma_below_grows(s: Seq<int>, i: int, j: int)
    requires
        0 <= i <= j <= s.len(),
        forall|k: int| 0 <= k < s.len() ==> 0 <= #[trigger] s[k],
    ensures
        0 <= below(s, i) <= below(s, j),
    decreases j,
{
    if i < j {
        lemma_below_grows(s, i, j - 1);
    } else if i > 0 {
        lemma_below_grows(s, i - 1, j - 1);
    }
}

proof fn lemma_symmetry_prefix(s: Seq<int>, t: Seq<int>, k: nat)
    requires
        k <= s.len(),
        k <= t.len(),
        forall|i: int| 0 <= i < k ==> s[i] == t[i],
    ensures
        symmetry(s, k) == symmetry(t, k),
    decreases k,
{
    if k > 0 {
        lemma_symmetry_prefix(s, t, (k - 1) as nat);
    }
}

proof fn lemma_factorials()
    ensures
        factorial(0) == 1,
        factorial(1) == 1,
        factorial(2) == 2,
        factorial(3) == 6,
        factorial(4) == 24,
        factorial(5) == 120,
        factorial(6) == 720,
        factorial(7) == 5040,
        factorial(8) == 40320,
{
    reveal_with_fuel(factorial, 9);
}

/// The groups of some entries hold those entries.
pub(crate) proof fn lemma_groups(xs: Seq<i32>, k: nat)
    requires
        1 <= k <= xs.len(),
    ensures
        ({
            let g = groups(xs, k);
            &&& 1 <= g.sizes.len() <= k
            &&& g.values.len() == g.sizes.len()
            &&& is_multiset(g.sizes, k as int)
            &&& g.sizes[g.sizes.len() - 1] >= 1
            &&& g.values[g.values.len() - 1] == xs[k - 1]
        }),
    decreases k,
{
    reveal_with_fuel(groups, 2);
    reveal_with_fuel(below, 2);
    if k > 1 {
        let j = (k - 1) as nat;
        lemma_groups(xs, j);
        let g = groups(xs, j);
        let last = g.sizes.len() - 1;
        if xs[k - 1] == xs[k - 2] {
            let t = g.sizes.update(last, g.sizes[last] + 1);
            lemma_below_update(g.sizes, last, g.sizes[last] + 1, g.sizes.len() as int);
        } else {
            let t = g.sizes.push(1);
            lemma_below_prefix(g.sizes, t, g.sizes.len() as int);
        }
    }
}

/// How one more entry changes the symmetry of the groups.
pub(crate) proof fn lemma_groups_symmetry(xs: Seq<i32>, k: nat)
    requires
        2 <= k <= xs.len(),
    ensures
        ({
            let g = groups(xs, (k - 1) as nat);
            let h = groups(xs, k);
            let last = h.sizes.len() - 1;
            symmetry(h.sizes, h.sizes.len()) == symmetry(g.sizes, g.sizes.len()) * if xs[k - 1]
                == xs[k - 2] {
                h.sizes[last]
            } else {
                1
            }
        }),
{
    lemma_groups(xs, (k - 1) as nat);
    lemma_factorials();
    let g = groups(xs, (k - 1) as nat);
    let h = groups(xs, k);
    let last = h.sizes.len() - 1;
    lemma_symmetry_prefix(h.sizes, g.sizes, last as nat);
    if xs[k - 1] == xs[k - 2] {
        let s = g.sizes[last];
        let p = symmetry(g.sizes, last as nat);
        let f = factorial(s as nat);
        assert(factorial((s + 1) as nat) == (s + 1) * f);
        assert(p * ((s + 1) * f) == (p * f) * (s + 1)) by (nonlinear_arith);
    } else {
        let p = symmetry(g.sizes, g.sizes.len());
        assert(p * 1 == p);
    }
}

/// The group that is picked is the one whose parts `target` falls into.
proof fn lemma_pick(sizes: Seq<int>, target: int, unit: int, j: int)
    requires
        sizes.len() >= 1,
        0 <= j < sizes.len(),
        below(sizes, j) * unit <= target < below(sizes, sizes.len() as int) * unit,
    ensures
        j <= pick(sizes, target, unit, j) < sizes.len(),
        below(sizes, pick(sizes, target, unit, j)) * unit <= target,
        target < below(sizes, pick(sizes, target, unit, j) + 1) * unit,
    decreases sizes.len() - j,
{
    if j >= sizes.len() - 1 || target < below(sizes, j + 1) * unit {
    } else {
        lemma_pick(sizes, target, unit, j + 1);
    }
}

/// Un-rank a permutation of a multiset: `xs` comes in holding the values with
/// ties grouped together, and `rank` selects which of the
/// `8! / (multiplicities!)` distinct orderings to produce, written back into
/// `xs` in place.
///
/// This is the factorial-number-system technique for ranking permutations,
/// adapted for repeated values: at each output position, `rank` (scaled by how
/// many arrangements the *remaining* multiset has) is reduced against the
/// weighted count of arrangements starting with each remaining distinct value,
/// until it selects one.
pub fn rank_of_permutation(rank: i64, xs: &mut [i32; 8])
    requires
        groups(old(xs)@, 8).sizes.len() == 1 || is_rank(old(xs)@, rank as int),
    ensures
        Seq::new(8, |i: int| final(xs)@[i] as int) == arranged(old(xs)@, rank as int),
{
    let ghost start = xs@;
    let mut a: [i32; 8] = [0i32;8];
    let mut w: [i64; 8] = [0i64;8];
    let mut j: usize = 0;
    w[0] = 1;
    a[0] = xs[0];
    let mut base: i64 = 1;
    let mut i: usize = 1;
    proof {
        reveal_with_fuel(groups, 2);
        reveal_with_fuel(symmetry, 2);
        lemma_factorials();
    }
    while i < 8
        invariant
            1 <= i <= 8,
            xs@ == start,
            start.len() == 8,
            j < i,
            a@.len() == 8,
            w@.len() == 8,
            groups(start, i as nat).sizes.len() == j + 1,
            groups(start, i as nat).values.len() == j + 1,
            forall|k: int|
                0 <= k <= j ==> #[trigger] w@[k] == groups(start, i as nat).sizes[k],
            forall|k: int|
                0 <= k <= j ==> #[trigger] a@[k] == groups(start, i as nat).values[k],
            forall|k: int| j < k < 8 ==> #[trigger] w@[k] == 0,
            base == symmetry(groups(start, i as nat).sizes, (j + 1) as nat),
            1 <= base <= factorial(i as nat),
        decreases 8 - i,
    {
        proof {
            lemma_groups(start, i as nat);
            lemma_groups(start, (i + 1) as nat);
            lemma_groups_symmetry(start, (i + 1) as nat);
            lemma_factorials();
        }
        let ghost g = groups(start, i as nat);
        let ghost h = groups(start, (i + 1) as nat);
        if xs[i] != xs[i - 1] {
            j += 1;
            w[j] = 1;
            a[j] = xs[i];
        } else {
            proof {
                lemma_below_grows(h.sizes, j as int, (j + 1) as int);
                assert(h.sizes[j as int] == g.sizes[j as int] + 1);
                assert(below(h.sizes, (j + 1) as int) == i + 1);
                let b = base as int;
                let s = h.sizes[j as int];
                assert(1 <= b * s <= factorial(i as nat) * (i + 1)) by (nonlinear_arith)
                    requires
                        1 <= b <= factorial(i as nat),
                        1 <= s <= i + 1,
                ;
                assert(factorial((i + 1) as nat) == (i + 1) * factorial(i as nat));
                assert((i + 1) * factorial(i as nat) == factorial(i as nat) * (i + 1))
                    by (nonlinear_arith);
            }
            w[j] = w[j] + 1;
            base = base * w[j];
        }
        proof {
            assert(1 <= base <= factorial((i + 1) as nat)) by {
                assert(factorial((i + 1) as nat) == (i + 1) * factorial(i as nat));
                assert((i + 1) * factorial(i as nat) >= factorial(i as nat)) by (nonlinear_arith)
                    requires
                        factorial(i as nat) >= 1,
                ;
            }
        }
        i += 1;
    }
    let ghost g = groups(start, 8);
    let count: usize = j + 1;
    proof {
        lemma_groups(start, 8);
    }
    if w[0] == 8 {
        proof {
            lemma_one_group(g.sizes);
            lemma_single_choices(g.sizes, rank * symmetry(g.sizes, 1), 1, 8);
        }
        let mut k: usize = 0;
        while k < 8
            invariant
                k <= 8,
                forall|i: int| 0 <= i < k ==> #[trigger] xs@[i] == a@[0],
            decreases 8 - k,
        {
            xs[k] = a[0];
            k += 1;
        }
        assert(Seq::new(8, |i: int| xs@[i] as int) =~= arranged(start, rank as int));
        return ;
    }
    proof {
        lemma_factorials();
        if g.sizes.len() == 1 {
            assert(below(g.sizes, 1) == g.sizes[0]) by {
                reveal_with_fuel(below, 2);
            }
            assert(w@[0] == g.sizes[0]);
            assert(false);
        }
        assert(rank * base < 40320);
        assert(rank <= rank * base) by (nonlinear_arith)
            requires
                rank >= 0,
                base >= 1,
        ;
    }
    let ghost order = choices(g.sizes, rank * base, 1, 8);
    let mut target: i64 = rank * base;
    let mut fac_b: i64 = 1;
    let mut i: usize = 0;
    let ghost mut sizes = g.sizes;
    let ghost mut done = Seq::<int>::empty();
    assert(done + order =~= order);
    while i < 8
        invariant
            i <= 8,
            1 <= count <= 8,
            xs@.len() == 8,
            w@.len() == 8,
            sizes.len() == count,
            g.values.len() == count,
            is_multiset(sizes, 8 - i),
            forall|k: int| 0 <= k < count ==> #[trigger] w@[k] == sizes[k],
            forall|k: int| 0 <= k < count ==> #[trigger] a@[k] == g.values[k],
            0 <= target < fac_b * factorial((8 - i) as nat),
            fac_b >= 1,
            fac_b * factorial((8 - i) as nat) <= 40320,
            done.len() == i,
            done + choices(sizes, target as int, fac_b as int, (8 - i) as nat) == order,
            forall|k: int| 0 <= k < i ==> 0 <= #[trigger] done[k] < count,
            forall|k: int| 0 <= k < i ==> #[trigger] xs@[k] == g.values[done[k]],
        decreases 8 - i,
    {
        let ghost n = (8 - i) as nat;
        let ghost f = factorial((n - 1) as nat);
        proof {
            lemma_factorials();
            assert(factorial(n) == n * f);
            assert(FACTORIAL_TABLE[i as int] == f);
            assert(fac_b * (n * f) == n * (fac_b * f)) by (nonlinear_arith);
            assert(1 <= fac_b * f <= fac_b * (n * f)) by (nonlinear_arith)
                requires
                    fac_b >= 1,
                    f >= 1,
                    n >= 1,
            ;
        }
        let fac: i64 = fac_b * FACTORIAL_TABLE[i];
        let ghost t0 = target as int;
        proof {
            let none = below(sizes, 0);
            assert(none == 0);
            assert(none * fac == 0) by (nonlinear_arith)
                requires
                    none == 0,
            ;
            assert(fac == fac_b * f);
            assert(below(sizes, sizes.len() as int) == n);
            assert(t0 < n * fac);
            lemma_pick(sizes, t0, fac as int, 0);
        }
        let mut jj: usize = 0;
        loop
            invariant
                jj < count <= 8,
                w@.len() == 8,
                sizes.len() == count,
                forall|k: int| 0 <= k < count ==> #[trigger] w@[k] == sizes[k],
                is_multiset(sizes, n as int),
                n <= 8,
                1 <= fac <= 40320,
                0 <= t0 < n * fac,
                target == t0 - below(sizes, jj as int) * fac,
                0 <= target,
                pick(sizes, t0, fac as int, 0) == pick(sizes, t0, fac as int, jj as int),
            ensures
                jj < count,
                target < sizes[jj as int] * fac,
                pick(sizes, t0, fac as int, 0) == jj,
                target == t0 - below(sizes, jj as int) * fac,
                0 <= target,
            decreases count - jj,
        {
            proof {
                lemma_size_bound(sizes, n as int, jj as int);
                lemma_part(sizes, jj as int, fac as int);
                assert(0 <= sizes[jj as int] * fac <= 8 * 40320) by (nonlinear_arith)
                    requires
                        0 <= sizes[jj as int] <= 8,
                        1 <= fac <= 40320,
                ;
            }
            let part: i64 = w[jj] * fac;
            if target < part {
                break;
            }
            target = target - part;
            jj += 1;
        }
        proof {
            lemma_part(sizes, jj as int, fac as int);
            assert(pick(sizes, t0, fac as int, 0) == jj);
            lemma_size_bound(sizes, n as int, jj as int);
            assert(sizes[jj as int] >= 1) by (nonlinear_arith)
                requires
                    0 <= target < sizes[jj as int] * fac,
                    fac >= 1,
            ;
            let s = sizes[jj as int];
            let fb = fac_b as int;
            assert(s * (fb * f) == (fb * s) * f) by (nonlinear_arith);
            assert((fb * s) * f <= fb * (n * f)) by (nonlinear_arith)
                requires
                    1 <= s <= n,
                    fb >= 1,
                    f >= 1,
            ;
            assert(1 <= fb * s <= (fb * s) * f) by (nonlinear_arith)
                requires
                    s >= 1,
                    fb >= 1,
                    f >= 1,
            ;
            lemma_below_update(sizes, jj as int, s - 1, count as int);
            let next = sizes.update(jj as int, s - 1);
            let rest = choices(next, target as int, fb * s, (n - 1) as nat);
            assert(choices(sizes, t0, fb, n) == seq![jj as int] + rest);
            assert(done + (seq![jj as int] + rest) =~= done.push(jj as int) + rest);
            done = done.push(jj as int);
            sizes = next;
        }
        xs[i] = a[jj];
        fac_b = fac_b * w[jj];
        w[jj] = w[jj] - 1;
        i += 1;
    }
    assert(done =~= order) by {
        assert(done + Seq::<int>::empty() =~= done);
    }
    assert(Seq::new(8, |i: int| xs@[i] as int) =~= arranged(start, rank as int));
}

proof fn lemma_size_bound(sizes: Seq<int>, n: int, j: int)
    requires
        is_multiset(sizes, n),
        0 <= j < sizes.len(),
    ensures
        0 <= sizes[j] <= n,
{
    lemma_below_grows(sizes, 0, j);
    lemma_below_grows(sizes, j + 1, sizes.len() as int);
}

proof fn lemma_part(sizes: Seq<int>, j: int, unit: int)
    requires
        0 <= j < sizes.len(),
    ensures
        below(sizes, j + 1) * unit == below(sizes, j) * unit + sizes[j] * unit,
{
    assert((below(sizes, j) + sizes[j]) * unit == below(sizes, j) * unit + sizes[j] * unit)
        by (nonlinear_arith);
}

/// A first group of all entries is the only one, where no group is empty.
proof fn lemma_one_group(sizes: Seq<int>)
    requires
        is_multiset(sizes, 8),
        sizes[0] == 8,
        sizes[sizes.len() - 1] >= 1,
    ensures
        sizes.len() == 1,
{
    reveal_with_fuel(below, 2);
    if sizes.len() > 1 {
        lemma_below_grows(sizes, 1, sizes.len() - 1);
    }
}

proof fn lemma_single_choices(sizes: Seq<int>, target: int, scale: int, n: nat)
    requires
        sizes.len() == 1,
    ensures
        choices(sizes, target, scale, n) == Seq::new(n, |i: int| 0int),
    decreases n,
{
    if n == 0 {
        assert(choices(sizes, target, scale, n) =~= Seq::new(n, |i: int| 0int));
    } else {
        let unit = scale * factorial((n - 1) as nat);
        let k = (n - 1) as nat;
        lemma_single_choices(
            sizes.update(0, sizes[0] - 1),
            target - below(sizes, 0) * unit,
            scale * sizes[0],
            k,
        );
        assert(seq![0int] + Seq::new(k, |i: int| 0int) =~= Seq::new(n, |i: int| 0int));
    }
}

/// How often `v` occurs.
pub open spec fn occurrences(s: Seq<int>, v: int) -> int
    decreases s.len(),
{
    if s.len() == 0 {
        0
    } else {
        occurrences(s.drop_first(), v) + if s[0] == v {
            1int
        } else {
            0
        }
    }
}

proof fn lemma_occurrences_push(s: Seq<int>, x: int, v: int)
    ensures
        occurrences(s.push(x), v) == occurrences(s, v) + if x == v {
            1int
        } else {
            0
        },
    decreases s.len(),
{
    if s.len() == 0 {
        assert(s.push(x).drop_first() =~= s);
    } else {
        assert(s.push(x).drop_first() =~= s.drop_first().push(x));
        lemma_occurrences_push(s.drop_first(), x, v);
    }
}

/// The number of entries with value `v` in the first `k` groups.
spec fn total(g: Groups, v: int, k: nat) -> int
    decreases k,
{
    if k == 0 {
        0
    } else {
        total(g, v, (k - 1) as nat) + if g.values[k - 1] == v {
            g.sizes[k - 1]
        } else {
            0
        }
    }
}

proof fn lemma_total_prefix(g: Groups, h: Groups, v: int, k: nat)
    requires
        forall|i: int| 0 <= i < k ==> g.values[i] == h.values[i] && g.sizes[i] == h.sizes[i],
    ensures
        total(g, v, k) == total(h, v, k),
    decreases k,
{
    if k > 0 {
        lemma_total_prefix(g, h, v, (k - 1) as nat);
    }
}

proof fn lemma_total_update(g: Groups, v: int, at: int, x: int, k: nat)
    requires
        0 <= at < g.sizes.len(),
        k <= g.sizes.len(),
    ensures
        total(Groups { values: g.values, sizes: g.sizes.update(at, x) }, v, k) == total(g, v, k)
            + if at < k && g.values[at] == v {
            x - g.sizes[at]
        } else {
            0
        },
    decreases k,
{
    if k > 0 {
        lemma_total_update(g, v, at, x, (k - 1) as nat);
    }
}

proof fn lemma_total_zero(g: Groups, v: int, k: nat)
    requires
        k <= g.sizes.len(),
        forall|i: int| 0 <= i < g.sizes.len() ==> 0 <= #[trigger] g.sizes[i],
        below(g.sizes, g.sizes.len() as int) == 0,
    ensures
        total(g, v, k) == 0,
    decreases k,
{
    if k > 0 {
        lemma_total_zero(g, v, (k - 1) as nat);
        lemma_below_grows(g.sizes, 0, k - 1);
        lemma_below_grows(g.sizes, k as int, g.sizes.len() as int);
    }
}

spec fn as_ints(xs: Seq<i32>) -> Seq<int> {
    Seq::new(xs.len(), |i: int| xs[i] as int)
}

/// The groups of a multiset hold each value as often as it occurs.
proof fn lemma_groups_total(xs: Seq<i32>, v: int, k: nat)
    requires
        k <= xs.len(),
    ensures
        total(groups(xs, k), v, groups(xs, k).sizes.len()) == occurrences(
            as_ints(xs.take(k as int)),
            v,
        ),
    decreases k,
{
    if k == 0 {
        assert(as_ints(xs.take(0)) =~= Seq::empty());
    } else {
        let j = (k - 1) as nat;
        lemma_groups_total(xs, v, j);
        let g = groups(xs, j);
        let h = groups(xs, k);
        assert(as_ints(xs.take(k as int)) =~= as_ints(xs.take(j as int)).push(xs[k - 1] as int));
        lemma_occurrences_push(as_ints(xs.take(j as int)), xs[k - 1] as int, v);
        if k >= 2 {
            lemma_groups(xs, j);
        }
        let last = g.sizes.len() - 1;
        if k >= 2 && xs[k - 1] == xs[k - 2] {
            lemma_total_update(g, v, last, g.sizes[last] + 1, g.sizes.len());
        } else {
            lemma_total_prefix(g, h, v, g.sizes.len());
        }
    }
}

/// What a choice of groups is the arrangement of.
spec fn named(g: Groups, order: Seq<int>) -> Seq<int> {
    Seq::new(order.len(), |i: int| g.values[order[i]])
}

/// An order of groups in which each group comes up as often as it has entries.
spec fn draws(sizes: Seq<int>, order: Seq<int>) -> bool
    decreases order.len(),
{
    if order.len() == 0 {
        true
    } else {
        &&& 0 <= order[0] < sizes.len()
        &&& sizes[order[0]] >= 1
        &&& draws(sizes.update(order[0], sizes[order[0]] - 1), order.drop_first())
    }
}

/// The choices that a target selects draw every entry once.
proof fn lemma_choices_draw(sizes: Seq<int>, target: int, scale: int, n: nat)
    requires
        is_multiset(sizes, n as int),
        scale >= 1,
        0 <= target < scale * factorial(n),
    ensures
        choices(sizes, target, scale, n).len() == n,
        draws(sizes, choices(sizes, target, scale, n)),
    decreases n,
{
    if n > 0 {
        let f = factorial((n - 1) as nat);
        let unit = scale * f;
        lemma_factorial_positive((n - 1) as nat);
        assert(scale * (n * f) == n * unit) by (nonlinear_arith)
            requires
                unit == scale * f,
        ;
        assert(unit >= 1) by (nonlinear_arith)
            requires
                unit == scale * f,
                scale >= 1,
                f >= 1,
        ;
        let none = below(sizes, 0);
        assert(none * unit == 0) by (nonlinear_arith)
            requires
                none == 0,
        ;
        lemma_pick(sizes, target, unit, 0);
        let j = pick(sizes, target, unit, 0);
        let s = sizes[j];
        lemma_part(sizes, j, unit);
        assert(s >= 1) by (nonlinear_arith)
            requires
                0 <= target - below(sizes, j) * unit < s * unit,
                unit >= 1,
        ;
        assert(s * unit == (scale * s) * f) by (nonlinear_arith)
            requires
                unit == scale * f,
        ;
        assert(scale * s >= 1) by (nonlinear_arith)
            requires
                scale >= 1,
                s >= 1,
        ;
        lemma_below_update(sizes, j, s - 1, sizes.len() as int);
        let next = sizes.update(j, s - 1);
        let t = target - below(sizes, j) * unit;
        lemma_choices_draw(next, t, scale * s, (n - 1) as nat);
        let rest = choices(next, t, scale * s, (n - 1) as nat);
        assert((seq![j] + rest).drop_first() =~= rest);
    }
}

proof fn lemma_factorial_positive(n: nat)
    ensures
        factorial(n) >= 1,
    decreases n,
{
    if n > 0 {
        lemma_factorial_positive((n - 1) as nat);
        assert(n * factorial((n - 1) as nat) >= 1) by (nonlinear_arith)
            requires
                n >= 1,
                factorial((n - 1) as nat) >= 1,
        ;
    }
}

/// Drawing every entry once gives each value as often as it occurs.
proof fn lemma_draws_total(g: Groups, order: Seq<int>, v: int)
    requires
        g.values.len() == g.sizes.len(),
        is_multiset(g.sizes, order.len() as int),
        draws(g.sizes, order),
    ensures
        occurrences(named(g, order), v) == total(g, v, g.sizes.len()),
    decreases order.len(),
{
    if order.len() == 0 {
        lemma_total_zero(g, v, g.sizes.len());
    } else {
        let j = order[0];
        let next = Groups { values: g.values, sizes: g.sizes.update(j, g.sizes[j] - 1) };
        lemma_below_update(g.sizes, j, g.sizes[j] - 1, g.sizes.len() as int);
        lemma_draws_total(next, order.drop_first(), v);
        lemma_total_update(g, v, j, g.sizes[j] - 1, g.sizes.len());
        assert(named(g, order).drop_first() =~= named(next, order.drop_first()));
    }
}

/// Whether a rank is one that [`rank_of_permutation`] takes.
pub open spec fn is_unrankable(xs: Seq<i32>, rank: int) -> bool {
    xs.len() == 8 && (groups(xs, 8).sizes.len() == 1 || is_rank(xs, rank))
}

proof fn lemma_arranged(xs: Seq<i32>, rank: int)
    requires
        is_unrankable(xs, rank),
    ensures
        ({
            let g = groups(xs, 8);
            let order = choices(g.sizes, rank * symmetry(g.sizes, g.sizes.len()), 1, 8);
            &&& order.len() == 8
            &&& draws(g.sizes, order)
            &&& arranged(xs, rank) == named(g, order)
            &&& g.values.len() == g.sizes.len()
            &&& is_multiset(g.sizes, 8)
        }),
{
    lemma_groups(xs, 8);
    lemma_factorials();
    let g = groups(xs, 8);
    let base = symmetry(g.sizes, g.sizes.len());
    let order = choices(g.sizes, rank * base, 1, 8);
    if is_rank(xs, rank) {
        lemma_symmetry_positive(g.sizes, g.sizes.len());
        assert(0 <= rank * base) by (nonlinear_arith)
            requires
                rank >= 0,
                base >= 1,
        ;
        lemma_choices_draw(g.sizes, rank * base, 1, 8);
    } else {
        reveal_with_fuel(below, 2);
        lemma_single_choices(g.sizes, rank * base, 1, 8);
        lemma_zeros_draw(g.sizes, 8);
    }
    assert(arranged(xs, rank) =~= named(g, order));
}

proof fn lemma_zeros_draw(sizes: Seq<int>, n: nat)
    requires
        sizes.len() == 1,
        sizes[0] == n,
    ensures
        draws(sizes, Seq::new(n, |i: int| 0int)),
    decreases n,
{
    if n > 0 {
        let k = (n - 1) as nat;
        lemma_zeros_draw(sizes.update(0, n - 1), k);
        assert(Seq::new(n, |i: int| 0int).drop_first() =~= Seq::new(k, |i: int| 0int));
    }
}

pub(crate) proof fn lemma_symmetry_positive(sizes: Seq<int>, k: nat)
    requires
        k <= sizes.len(),
    ensures
        symmetry(sizes, k) >= 1,
    decreases k,
{
    if k > 0 {
        lemma_symmetry_positive(sizes, (k - 1) as nat);
        lemma_factorial_positive(sizes[k - 1] as nat);
        let a = symmetry(sizes, (k - 1) as nat);
        let b = factorial(sizes[k - 1] as nat);
        assert(a * b >= 1) by (nonlinear_arith)
            requires
                a >= 1,
                b >= 1,
        ;
    }
}

/// Whatever the rank, what is produced is a permutation of what was given.
pub proof fn law_unranked_is_a_permutation(xs: Seq<i32>, rank: int, v: int)
    requires
        is_unrankable(xs, rank),
    ensures
        occurrences(arranged(xs, rank), v) == occurrences(
            Seq::new(xs.len(), |i: int| xs[i] as int),
            v,
        ),
{
    lemma_arranged(xs, rank);
    let g = groups(xs, 8);
    let order = choices(g.sizes, rank * symmetry(g.sizes, g.sizes.len()), 1, 8);
    lemma_draws_total(g, order, v);
    lemma_groups_total(xs, v, 8);
    assert(xs.take(8) =~= xs);
    assert(as_ints(xs) =~= Seq::new(xs.len(), |i: int| xs[i] as int));
}

/// The smallest target that selects an order.
spec fn first_target(sizes: Seq<int>, order: Seq<int>, scale: int) -> int
    decreases order.len(),
{
    if order.len() == 0 {
        0
    } else {
        let unit = scale * factorial((order.len() - 1) as nat);
        let j = order[0];
        below(sizes, j) * unit + first_target(
            sizes.update(j, sizes[j] - 1),
            order.drop_first(),
            scale * sizes[j],
        )
    }
}

proof fn lemma_symmetry_update(sizes: Seq<int>, at: int, k: nat)
    requires
        0 <= at < k <= sizes.len(),
        sizes[at] >= 1,
    ensures
        symmetry(sizes, k) == sizes[at] * symmetry(sizes.update(at, sizes[at] - 1), k),
    decreases k,
{
    let s = sizes[at];
    let t = sizes.update(at, s - 1);
    let p = symmetry(sizes, (k - 1) as nat);
    let q = symmetry(t, (k - 1) as nat);
    let f = factorial(t[k - 1] as nat);
    if at == k - 1 {
        lemma_symmetry_prefix(sizes, t, (k - 1) as nat);
        assert(factorial(s as nat) == s * factorial((s - 1) as nat));
        assert(p * (s * f) == s * (p * f)) by (nonlinear_arith);
    } else {
        lemma_symmetry_update(sizes, at, (k - 1) as nat);
        assert((s * q) * f == s * (q * f)) by (nonlinear_arith);
    }
}

proof fn lemma_symmetry_of_nothing(sizes: Seq<int>, k: nat)
    requires
        k <= sizes.len(),
        is_multiset(sizes, 0),
    ensures
        symmetry(sizes, k) == 1,
    decreases k,
{
    lemma_factorials();
    if k > 0 {
        lemma_symmetry_of_nothing(sizes, (k - 1) as nat);
        lemma_size_bound(sizes, 0, k - 1);
    }
}

/// The targets that select an order are those from the first on, as many as
/// the order has symmetries.
proof fn lemma_first_target(sizes: Seq<int>, order: Seq<int>, scale: int, target: int)
    requires
        is_multiset(sizes, order.len() as int),
        draws(sizes, order),
        scale >= 1,
    ensures
        ({
            let first = first_target(sizes, order, scale);
            let width = scale * symmetry(sizes, sizes.len());
            &&& 0 <= first
            &&& first + width <= scale * factorial(order.len())
            &&& first <= target < first + width ==> choices(sizes, target, scale, order.len())
                == order
        }),
    decreases order.len(),
{
    let n = order.len();
    lemma_factorials();
    if n == 0 {
        lemma_symmetry_of_nothing(sizes, sizes.len());
        assert(scale * 1 == scale);
        assert(choices(sizes, target, scale, n) =~= order);
    } else {
        let f = factorial((n - 1) as nat);
        let unit = scale * f;
        let j = order[0];
        let s = sizes[j];
        let next = sizes.update(j, s - 1);
        let rest = order.drop_first();
        let at = below(sizes, j) * unit;
        lemma_factorial_positive((n - 1) as nat);
        lemma_below_update(sizes, j, s - 1, sizes.len() as int);
        lemma_symmetry_update(sizes, j, sizes.len());
        assert(scale * s >= 1) by (nonlinear_arith)
            requires
                scale >= 1,
                s >= 1,
        ;
        lemma_first_target(next, rest, scale * s, target - at);
        let first = first_target(next, rest, scale * s);
        let y = symmetry(next, next.len());
        assert((scale * s) * y == scale * (s * y)) by (nonlinear_arith);
        assert((scale * s) * f == s * unit) by (nonlinear_arith)
            requires
                unit == scale * f,
        ;
        assert(scale * (n * f) == n * unit) by (nonlinear_arith)
            requires
                unit == scale * f,
        ;
        assert(unit >= 1) by (nonlinear_arith)
            requires
                unit == scale * f,
                scale >= 1,
                f >= 1,
        ;
        lemma_part(sizes, j, unit);
        lemma_below_grows(sizes, 0, j);
        lemma_below_grows(sizes, j + 1, sizes.len() as int);
        assert(at >= 0) by (nonlinear_arith)
            requires
                at == below(sizes, j) * unit,
                below(sizes, j) >= 0,
                unit >= 1,
        ;
        assert(below(sizes, j + 1) * unit <= n * unit) by (nonlinear_arith)
            requires
                below(sizes, j + 1) <= n,
                unit >= 1,
        ;
        if first + at <= target < first + at + scale * symmetry(sizes, sizes.len()) {
            lemma_pick_unique(sizes, target, unit, 0, j);
            assert(seq![j] + rest =~= order);
        }
    }
}

proof fn lemma_pick_unique(sizes: Seq<int>, target: int, unit: int, i: int, j: int)
    requires
        0 <= i <= j < sizes.len(),
        forall|k: int| 0 <= k < sizes.len() ==> 0 <= #[trigger] sizes[k],
        unit >= 1,
        below(sizes, j) * unit <= target < below(sizes, j + 1) * unit,
    ensures
        pick(sizes, target, unit, i) == j,
    decreases j - i,
{
    if i < j {
        lemma_below_grows(sizes, i + 1, j);
        assert(below(sizes, i + 1) * unit <= below(sizes, j) * unit) by (nonlinear_arith)
            requires
                below(sizes, i + 1) <= below(sizes, j),
                unit >= 1,
        ;
        lemma_pick_unique(sizes, target, unit, i + 1, j);
    }
}

/// A target lies among those that select what it selects.
proof fn lemma_target_of_choices(sizes: Seq<int>, target: int, scale: int, n: nat)
    requires
        is_multiset(sizes, n as int),
        scale >= 1,
        0 <= target < scale * factorial(n),
    ensures
        ({
            let first = first_target(sizes, choices(sizes, target, scale, n), scale);
            first <= target < first + scale * symmetry(sizes, sizes.len())
        }),
    decreases n,
{
    lemma_factorials();
    if n == 0 {
        lemma_symmetry_of_nothing(sizes, sizes.len());
        assert(scale * 1 == scale);
    } else {
        let f = factorial((n - 1) as nat);
        let unit = scale * f;
        lemma_choices_draw(sizes, target, scale, n);
        lemma_factorial_positive((n - 1) as nat);
        assert(scale * (n * f) == n * unit) by (nonlinear_arith)
            requires
                unit == scale * f,
        ;
        let none = below(sizes, 0);
        assert(none * unit == 0) by (nonlinear_arith)
            requires
                none == 0,
        ;
        lemma_pick(sizes, target, unit, 0);
        let j = pick(sizes, target, unit, 0);
        let s = sizes[j];
        lemma_part(sizes, j, unit);
        let t = target - below(sizes, j) * unit;
        assert(s * unit == (scale * s) * f) by (nonlinear_arith)
            requires
                unit == scale * f,
        ;
        let order = choices(sizes, target, scale, n);
        let next = sizes.update(j, s - 1);
        let rest = choices(next, t, scale * s, (n - 1) as nat);
        assert(order[0] == j);
        assert(order.drop_first() =~= rest);
        assert(scale * s >= 1) by (nonlinear_arith)
            requires
                scale >= 1,
                s >= 1,
        ;
        lemma_below_update(sizes, j, s - 1, sizes.len() as int);
        lemma_target_of_choices(next, t, scale * s, (n - 1) as nat);
        lemma_symmetry_update(sizes, j, sizes.len());
        let y = symmetry(next, next.len());
        assert((scale * s) * y == scale * (s * y)) by (nonlinear_arith);
    }
}

/// Whether equal values stand together: no value comes back after another.
pub open spec fn is_grouped(xs: Seq<i32>) -> bool {
    forall|i: int, j: int|
        0 <= i < j < groups(xs, 8).values.len() ==> groups(xs, 8).values[i] != groups(
            xs,
            8,
        ).values[j]
}

/// Different ranks produce different orderings.
pub proof fn law_unranking_is_injective(xs: Seq<i32>, rank: int, other: int)
    requires
        xs.len() == 8,
        is_grouped(xs),
        is_rank(xs, rank),
        is_rank(xs, other),
        arranged(xs, rank) == arranged(xs, other),
    ensures
        rank == other,
{
    let g = groups(xs, 8);
    let base = symmetry(g.sizes, g.sizes.len());
    lemma_arranged(xs, rank);
    lemma_arranged(xs, other);
    lemma_symmetry_positive(g.sizes, g.sizes.len());
    lemma_factorials();
    let a = choices(g.sizes, rank * base, 1, 8);
    let b = choices(g.sizes, other * base, 1, 8);
    assert forall|i: int| 0 <= i < 8 implies a[i] == b[i] by {
        lemma_draws_range(g.sizes, a, i);
        lemma_draws_range(g.sizes, b, i);
        assert(named(g, a)[i] == named(g, b)[i]);
        assert(g.values[a[i]] == g.values[b[i]]);
    }
    assert(a =~= b);
    assert(rank * base >= 0 && other * base >= 0) by (nonlinear_arith)
        requires
            rank >= 0,
            other >= 0,
            base >= 1,
    ;
    lemma_target_of_choices(g.sizes, rank * base, 1, 8);
    lemma_target_of_choices(g.sizes, other * base, 1, 8);
    assert(rank == other) by (nonlinear_arith)
        requires
            -base < rank * base - other * base < base,
            base >= 1,
    ;
}

proof fn lemma_draws_range(sizes: Seq<int>, order: Seq<int>, i: int)
    requires
        draws(sizes, order),
        0 <= i < order.len(),
    ensures
        0 <= order[i] < sizes.len(),
    decreases order.len(),
{
    if i > 0 {
        lemma_draws_range(
            sizes.update(order[0], sizes[order[0]] - 1),
            order.drop_first(),
            i - 1,
        );
    }
}

/// The group that holds a value.
spec fn group_of(g: Groups, v: int) -> int {
    choose|j: int| 0 <= j < g.values.len() && g.values[j] == v
}

spec fn order_of(g: Groups, ys: Seq<int>) -> Seq<int> {
    Seq::new(ys.len(), |i: int| group_of(g, ys[i]))
}

proof fn lemma_total_of_group(g: Groups, j: int, k: nat)
    requires
        g.values.len() == g.sizes.len(),
        0 <= j < g.values.len(),
        k <= g.values.len(),
        forall|a: int, b: int| 0 <= a < b < g.values.len() ==> g.values[a] != g.values[b],
    ensures
        total(g, g.values[j], k) == if j < k {
            g.sizes[j]
        } else {
            0
        },
    decreases k,
{
    if k > 0 {
        lemma_total_of_group(g, j, (k - 1) as nat);
    }
}

proof fn lemma_total_of_stranger(g: Groups, v: int, k: nat)
    requires
        k <= g.values.len(),
        forall|j: int| 0 <= j < g.values.len() ==> g.values[j] != v,
    ensures
        total(g, v, k) == 0,
    decreases k,
{
    if k > 0 {
        lemma_total_of_stranger(g, v, (k - 1) as nat);
    }
}

/// An arrangement of the entries of some groups is drawn from them.
proof fn lemma_order_draws(g: Groups, ys: Seq<int>)
    requires
        g.values.len() == g.sizes.len(),
        is_multiset(g.sizes, ys.len() as int),
        forall|a: int, b: int| 0 <= a < b < g.values.len() ==> g.values[a] != g.values[b],
        forall|v: int| #[trigger] occurrences(ys, v) == total(g, v, g.sizes.len()),
    ensures
        draws(g.sizes, order_of(g, ys)),
        named(g, order_of(g, ys)) == ys,
    decreases ys.len(),
{
    if ys.len() > 0 {
        let v = ys[0];
        let j = group_of(g, v);
        lemma_occurrences_nonnegative(ys.drop_first(), v);
        assert(occurrences(ys, v) >= 1);
        if forall|i: int| 0 <= i < g.values.len() ==> g.values[i] != v {
            lemma_total_of_stranger(g, v, g.sizes.len());
        }
        assert(0 <= j < g.values.len() && g.values[j] == v);
        lemma_total_of_group(g, j, g.sizes.len());
        let next = Groups { values: g.values, sizes: g.sizes.update(j, g.sizes[j] - 1) };
        lemma_below_update(g.sizes, j, g.sizes[j] - 1, g.sizes.len() as int);
        let rest = ys.drop_first();
        assert forall|u: int| #[trigger] occurrences(rest, u) == total(
            next,
            u,
            next.sizes.len(),
        ) by {
            lemma_total_update(g, u, j, g.sizes[j] - 1, g.sizes.len());
            assert(occurrences(ys, u) == total(g, u, g.sizes.len()));
        }
        lemma_order_draws(next, rest);
        assert(order_of(g, ys).drop_first() =~= order_of(next, rest));
        assert forall|i: int| 0 <= i < ys.len() implies named(g, order_of(g, ys))[i] == ys[i] by {
            if i > 0 {
                assert(named(next, order_of(next, rest))[i - 1] == rest[i - 1]);
            }
        }
        assert(named(g, order_of(g, ys)) =~= ys);
    } else {
        assert(named(g, order_of(g, ys)) =~= ys);
    }
}

proof fn lemma_occurrences_nonnegative(s: Seq<int>, v: int)
    ensures
        occurrences(s, v) >= 0,
    decreases s.len(),
{
    if s.len() > 0 {
        lemma_occurrences_nonnegative(s.drop_first(), v);
    }
}

/// Every ordering is produced by some rank.
pub proof fn law_unranking_is_surjective(xs: Seq<i32>, ys: Seq<int>)
    requires
        xs.len() == 8,
        ys.len() == 8,
        is_grouped(xs),
        forall|v: int| #[trigger] occurrences(ys, v) == occurrences(
            Seq::new(xs.len(), |i: int| xs[i] as int),
            v,
        ),
    ensures
        exists|rank: int| is_rank(xs, rank) && #[trigger] arranged(xs, rank) == ys,
{
    let g = groups(xs, 8);
    let base = symmetry(g.sizes, g.sizes.len());
    lemma_groups(xs, 8);
    lemma_symmetry_positive(g.sizes, g.sizes.len());
    lemma_factorials();
    assert(as_ints(xs.take(8)) =~= Seq::new(xs.len(), |i: int| xs[i] as int));
    assert forall|v: int| #[trigger] occurrences(ys, v) == total(g, v, g.sizes.len()) by {
        lemma_groups_total(xs, v, 8);
    }
    lemma_order_draws(g, ys);
    let order = order_of(g, ys);
    let first = first_target(g.sizes, order, 1);
    // The one multiple of the symmetry among the targets that select the order.
    let rank = (first + base - 1) / base;
    vstd::arithmetic::div_mod::lemma_fundamental_div_mod(first + base - 1, base);
    assert(first <= rank * base < first + base) by (nonlinear_arith)
        requires
            first + base - 1 == base * rank + (first + base - 1) % base,
            0 <= (first + base - 1) % base < base,
    ;
    lemma_first_target(g.sizes, order, 1, rank * base);
    assert(rank >= 0) by (nonlinear_arith)
        requires
            rank * base >= 0,
            base >= 1,
    ;
    assert(arranged(xs, rank) =~= named(g, order));
}

} // verus!
