//! The integer plan of a complex FFT for power-of-two lengths.
//!
//! Decimation in time, radix 4 wherever the remaining length allows and radix
//! 2 for the single leftover stage when the length is an odd power of two.
//! This module fixes the order in which the inputs are gathered and the
//! stages that follow; the butterflies themselves are floating point.

use vstd::arithmetic::div_mod::*;
use vstd::prelude::*;

verus! {

/// Whether `n` is a power of two.
pub open spec fn dyadic(n: nat) -> bool
    decreases n,
{
    n == 1 || (n > 1 && n % 2 == 0 && dyadic(n / 2))
}

/// The radix of the outermost split of a transform of length `n`.
pub open spec fn radix(n: nat) -> nat {
    if n % 4 == 0 {
        4
    } else {
        2
    }
}

/// The input that belongs at position `k` of a transform of length `n`: the
/// outermost split deals the inputs out by residue.
pub open spec fn source(n: nat, k: nat) -> nat
    decreases n,
{
    if n <= 1 {
        0
    } else {
        let r = radix(n);
        let m = n / r;
        k / m + r * source(m, k % m)
    }
}

/// The position at which input `i` is placed.
pub open spec fn target(n: nat, i: nat) -> nat
    decreases n,
{
    if n <= 1 {
        0
    } else {
        let r = radix(n);
        let m = n / r;
        m * (i % r) + target(m, i / r)
    }
}

/// The radices of a transform of length `n`, outermost first.
pub open spec fn splits(n: nat) -> Seq<usize>
    decreases n,
{
    if n <= 1 {
        Seq::empty()
    } else {
        seq![radix(n) as usize] + splits(n / radix(n))
    }
}

/// The product of a sequence of numbers.
pub open spec fn product(s: Seq<usize>) -> nat
    decreases s.len(),
{
    if s.len() == 0 {
        1
    } else {
        product(s.drop_last()) * s.last() as nat
    }
}

proof fn lemma_split(n: nat)
    requires
        dyadic(n),
        n > 1,
    ensures
        radix(n) * (n / radix(n)) == n,
        dyadic(n / radix(n)),
        1 <= n / radix(n) < n,
{
    if n % 4 == 0 {
        assert(n / 4 == (n / 2) / 2);
        assert(dyadic(n / 2));
    }
}

proof fn lemma_source_bound(n: nat, k: nat)
    requires
        dyadic(n),
        k < n,
    ensures
        source(n, k) < n,
    decreases n,
{
    if n > 1 {
        lemma_split(n);
        let r = radix(n);
        let m = n / r;
        lemma_source_bound(m, k % m);
        let inner = source(m, k % m);
        assert(k / m < r) by {
            lemma_multiply_divide_lt(k as int, m as int, r as int);
        }
        assert(k / m + r * inner < r * m) by (nonlinear_arith)
            requires
                k / m < r,
                inner < m,
                0 <= inner,
                0 < r,
        ;
    }
}

proof fn lemma_target_bound(n: nat, i: nat)
    requires
        dyadic(n),
        i < n,
    ensures
        target(n, i) < n,
    decreases n,
{
    if n > 1 {
        lemma_split(n);
        let r = radix(n);
        let m = n / r;
        assert(i / r < m) by {
            assert(r * m == m * r) by (nonlinear_arith);
            lemma_multiply_divide_lt(i as int, r as int, m as int);
        }
        lemma_target_bound(m, i / r);
        let inner = target(m, i / r);
        let a = i % r;
        assert(m * a + inner < r * m) by (nonlinear_arith)
            requires
                a < r,
                0 <= a,
                inner < m,
                0 < m,
        ;
    }
}

/// Gathering the inputs is a permutation: [`source`] and [`target`] stay in
/// range and undo each other.
pub proof fn law_gathering_is_a_permutation(n: nat, k: nat)
    requires
        dyadic(n),
        k < n,
    ensures
        source(n, k) < n,
        target(n, k) < n,
        target(n, source(n, k)) == k,
        source(n, target(n, k)) == k,
    decreases n,
{
    lemma_source_bound(n, k);
    lemma_target_bound(n, k);
    if n > 1 {
        lemma_split(n);
        let r = radix(n);
        let m = n / r;
        // From position to input and back.
        law_gathering_is_a_permutation(m, k % m);
        let inner = source(m, k % m);
        let i = source(n, k);
        assert(k / m < r) by {
            lemma_multiply_divide_lt(k as int, m as int, r as int);
        }
        lemma_fundamental_div_mod_converse(i as int, r as int, inner as int, (k / m) as int);
        lemma_fundamental_div_mod(k as int, m as int);
        // From input to position and back.
        assert(k / r < m) by {
            assert(r * m == m * r) by (nonlinear_arith);
            lemma_multiply_divide_lt(k as int, r as int, m as int);
        }
        law_gathering_is_a_permutation(m, k / r);
        let outer = target(m, k / r);
        let t = target(n, k);
        assert(t == (k % r) * m + outer) by (nonlinear_arith)
            requires
                t == m * (k % r) + outer,
        ;
        lemma_fundamental_div_mod_converse(t as int, m as int, (k % r) as int, outer as int);
        lemma_fundamental_div_mod(k as int, r as int);
    }
}

proof fn lemma_product_concat(a: Seq<usize>, b: Seq<usize>)
    ensures
        product(a + b) == product(a) * product(b),
    decreases b.len(),
{
    if b.len() == 0 {
        assert(a + b =~= a);
        assert(product(a) * product(b) == product(a)) by (nonlinear_arith)
            requires
                product(b) == 1,
        ;
    } else {
        lemma_product_concat(a, b.drop_last());
        assert((a + b).drop_last() =~= a + b.drop_last());
        assert(product(a) * product(b.drop_last()) * b.last() as nat == product(a) * (product(
            b.drop_last(),
        ) * b.last() as nat)) by (nonlinear_arith);
    }
}

proof fn lemma_product_one(x: usize)
    ensures
        product(seq![x]) == x,
{
    assert(seq![x].drop_last() =~= Seq::<usize>::empty());
    let none = Seq::<usize>::empty();
    assert(product(none) == 1);
    assert(product(none) * x as nat == x) by (nonlinear_arith)
        requires
            product(none) == 1,
    ;
}

/// The radices, innermost first.
pub open spec fn radices(n: nat) -> Seq<usize> {
    splits(n).reverse()
}

proof fn lemma_radices_unfold(n: nat)
    requires
        n > 1,
    ensures
        radices(n) == radices(n / radix(n)) + seq![radix(n) as usize],
{
    let r = seq![radix(n) as usize];
    assert((r + splits(n / radix(n))).reverse() =~= splits(n / radix(n)).reverse() + r);
}

/// The radices multiply back to the length, each of them is 2 or 4, and at
/// most the innermost one is 2.
pub proof fn law_radices_factor_the_length(n: nat)
    requires
        dyadic(n),
    ensures
        product(radices(n)) == n,
        forall|s: int|
            0 <= s < radices(n).len() ==> (#[trigger] radices(n)[s] == 4 || (s == 0 && radices(
                n,
            )[s] == 2)),
    decreases n,
{
    if n > 1 {
        lemma_split(n);
        lemma_radices_unfold(n);
        let r = radix(n);
        let m = n / r;
        law_radices_factor_the_length(m);
        lemma_product_concat(radices(m), seq![r as usize]);
        lemma_product_one(r as usize);
        assert(product(radices(m)) * r == r * m) by (nonlinear_arith)
            requires
                product(radices(m)) == m,
        ;
        if r == 2 {
            // An odd number of twos: nothing is left to split.
            assert(n / 2 == 1) by {
                if n / 2 > 1 {
                    assert(dyadic(n / 2));
                    assert((n / 2) % 2 == 0);
                }
            }
            assert(radices(1) =~= Seq::<usize>::empty());
        }
        assert forall|s: int| 0 <= s < radices(n).len() implies (#[trigger] radices(n)[s] == 4 || (s
            == 0 && radices(n)[s] == 2)) by {
            if s < radices(m).len() {
                assert(radices(n)[s] == radices(m)[s]);
            }
        }
    } else {
        assert(radices(n) =~= Seq::<usize>::empty());
    }
}

/// Fills `out` from position `from` on with the inputs `first`, `first +
/// stride`, ... that belong to a transform of length `n`.
fn gather(n: usize, first: u32, stride: u32, out: &mut Vec<u32>)
    requires
        dyadic(n as nat),
        stride >= 1,
        first + (n - 1) * stride <= u32::MAX,
        n * stride <= u32::MAX,
    ensures
        final(out)@.len() == old(out)@.len() + n,
        forall|k: int| 0 <= k < old(out)@.len() ==> #[trigger] final(out)@[k] == old(out)@[k],
        forall|k: int|
            0 <= k < n ==> #[trigger] final(out)@[old(out)@.len() + k] == first + source(
                n as nat,
                k as nat,
            ) * stride,
    decreases n,
{
    if n == 1 {
        out.push(first);
        return;
    }
    let r: usize = if n % 4 == 0 {
        4
    } else {
        2
    };
    let m: usize = n / r;
    proof {
        lemma_split(n as nat);
    }
    let mut a: usize = 0;
    let ghost start = out@;
    assert(n * stride == m * (r * stride)) by (nonlinear_arith)
        requires
            n == r * m,
    ;
    while a < r
        invariant
            a <= r,
            r == radix(n as nat),
            r == 4 || r == 2,
            m == n / r,
            n == r * m,
            1 <= m < n,
            dyadic(m as nat),
            stride >= 1,
            first + (n - 1) * stride <= u32::MAX,
            n * stride <= u32::MAX,
            n * stride == m * (r * stride),
            start == old(out)@,
            out@.len() == start.len() + a * m,
            forall|k: int| 0 <= k < start.len() ==> #[trigger] out@[k] == start[k],
            forall|k: int|
                0 <= k < a * m ==> #[trigger] out@[start.len() + k] == first + source(
                    n as nat,
                    k as nat,
                ) * stride,
        decreases r - a,
    {
        proof {
            assert(r * stride >= 1) by (nonlinear_arith)
                requires
                    r >= 2,
                    stride >= 1,
            ;
            assert(r * stride <= n * stride) by (nonlinear_arith)
                requires
                    r <= n,
                    stride >= 1,
            ;
            assert(a * stride <= (n - 1) * stride) by (nonlinear_arith)
                requires
                    a <= n - 1,
                    stride >= 1,
            ;
            assert(first + a * stride + (m - 1) * (r * stride) <= first + (n - 1) * stride)
                by (nonlinear_arith)
                requires
                    n == r * m,
                    a <= r - 1,
                    stride >= 1,
            ;
        }
        let ghost before = out@;
        gather(m, first + a as u32 * stride, r as u32 * stride, out);
        proof {
            assert((a + 1) * m == a * m + m) by (nonlinear_arith);
            assert forall|k: int| 0 <= k < (a + 1) * m implies #[trigger] out@[start.len() + k]
                == first + source(n as nat, k as nat) * stride by {
                if k < a * m {
                    assert(before[start.len() + k] == first + source(n as nat, k as nat) * stride);
                } else {
                    let j = k - a * m;
                    assert(out@[before.len() + j] == (first + a * stride) + source(
                        m as nat,
                        j as nat,
                    ) * (r * stride));
                    lemma_fundamental_div_mod_converse(k, m as int, a as int, j);
                    let inner = source(m as nat, j as nat);
                    assert((first + a * stride) + inner * (r * stride) == first + (a + r * inner)
                        * stride) by (nonlinear_arith);
                }
            }
        }
        a += 1;
    }
}

/// The order in which inputs are arranged for the decimation-in-time stages.
pub fn digit_reverse(n: usize) -> (p: Vec<u32>)
    requires
        dyadic(n as nat),
        n <= u32::MAX,
    ensures
        p@.len() == n,
        forall|k: int| 0 <= k < n ==> #[trigger] p@[k] == source(n as nat, k as nat),
{
    let mut out: Vec<u32> = Vec::with_capacity(n);
    gather(n, 0, 1, &mut out);
    assert forall|k: int| 0 <= k < n implies #[trigger] out@[k] == source(n as nat, k as nat) by {
        assert(out@[0 + k] == source(n as nat, k as nat) * 1);
    }
    out
}

/// The radices the stages use, innermost first.
pub fn stage_radices(n: usize) -> (r: Vec<usize>)
    requires
        dyadic(n as nat),
    ensures
        r@ == radices(n as nat),
    decreases n,
{
    if n <= 1 {
        let out: Vec<usize> = Vec::new();
        assert(out@ =~= radices(n as nat));
        return out;
    }
    proof {
        lemma_split(n as nat);
        lemma_radices_unfold(n as nat);
    }
    let r: usize = if n % 4 == 0 {
        4
    } else {
        2
    };
    let mut out: Vec<usize> = stage_radices(n / r);
    out.push(r);
    assert(out@ =~= radices(n as nat));
    out
}

/// One butterfly stage: its radix, and the length of the sub-transforms that
/// enter it.
#[derive(Debug, Clone, Copy, PartialEq, Eq, Structural)]
pub struct StagePlan {
    pub radix: usize,
    pub span: usize,
}

/// Where the inputs go and which stages follow, for one transform length.
#[derive(Debug, Clone)]
pub struct FftPlan {
    length: usize,
    permutation: Vec<u32>,
    stages: Vec<StagePlan>,
}

impl FftPlan {
    pub closed spec fn len(self) -> nat {
        self.length as nat
    }

    pub closed spec fn order(self) -> Seq<u32> {
        self.permutation@
    }

    pub closed spec fn stage_plans(self) -> Seq<StagePlan> {
        self.stages@
    }

    /// A plan for transform length `length`.
    pub fn new(length: usize) -> (r: Self)
        requires
            dyadic(length as nat),
            length <= u32::MAX,
        ensures
            r.len() == length,
            r.order().len() == length,
            forall|k: int|
                0 <= k < length ==> #[trigger] r.order()[k] == source(length as nat, k as nat),
            r.stage_plans().len() == radices(length as nat).len(),
            forall|s: int|
                0 <= s < r.stage_plans().len() ==> {
                    &&& (#[trigger] r.stage_plans()[s]).radix == radices(length as nat)[s]
                    &&& r.stage_plans()[s].span == product(radices(length as nat).take(s))
                },
    {
        let permutation: Vec<u32> = digit_reverse(length);
        let factors: Vec<usize> = stage_radices(length);
        let mut stages: Vec<StagePlan> = Vec::new();
        let mut span: usize = 1;
        let mut s: usize = 0;
        let ghost all = radices(length as nat);
        proof {
            law_radices_factor_the_length(length as nat);
            assert(all.take(0) =~= Seq::<usize>::empty());
        }
        while s < factors.len()
            invariant
                s <= factors@.len(),
                factors@ == all,
                all == radices(length as nat),
                product(all) == length,
                forall|t: int| 0 <= t < all.len() ==> #[trigger] all[t] >= 1,
                span == product(all.take(s as int)),
                stages@.len() == s,
                forall|t: int|
                    0 <= t < s ==> {
                        &&& (#[trigger] stages@[t]).radix == all[t]
                        &&& stages@[t].span == product(all.take(t))
                    },
            decreases factors@.len() - s,
        {
            let radix: usize = factors[s];
            proof {
                assert(all.take(s + 1).drop_last() =~= all.take(s as int));
                assert(all =~= all.take(s + 1) + all.skip(s + 1));
                lemma_product_concat(all.take(s + 1), all.skip(s + 1));
                lemma_product_positive(all.skip(s + 1));
                assert(product(all.take(s + 1)) <= product(all)) by (nonlinear_arith)
                    requires
                        product(all) == product(all.take(s + 1)) * product(all.skip(s + 1)),
                        product(all.skip(s + 1)) >= 1,
                ;
            }
            stages.push(StagePlan { radix, span });
            span = span * radix;
            s += 1;
        }
        FftPlan { length, permutation, stages }
    }

    /// The transform length.
    pub fn length(&self) -> (r: usize)
        ensures
            r == self.len(),
    {
        self.length
    }

    /// The input order: entry `k` is the input that belongs at position `k`.
    pub fn permutation(&self) -> (r: &[u32])
        ensures
            r@ == self.order(),
    {
        self.permutation.as_slice()
    }

    /// The stages, innermost first.
    pub fn stages(&self) -> (r: &[StagePlan])
        ensures
            r@ == self.stage_plans(),
    {
        self.stages.as_slice()
    }
}

proof fn lemma_product_positive(s: Seq<usize>)
    requires
        forall|t: int| 0 <= t < s.len() ==> #[trigger] s[t] >= 1,
    ensures
        product(s) >= 1,
    decreases s.len(),
{
    if s.len() > 0 {
        lemma_product_positive(s.drop_last());
        assert(product(s.drop_last()) * s.last() as nat >= 1) by (nonlinear_arith)
            requires
                product(s.drop_last()) >= 1,
                s.last() >= 1,
        ;
    }
}

/// The positions of a transform fall into four parts, or into two where four
/// do not divide the length. Part `a` gets every fourth, or every second,
/// input from input `a` on, in the order of a transform of the part's length.
pub proof fn law_gathering_deals_by_residue(n: nat, a: nat, j: nat)
    requires
        dyadic(n),
        n > 1,
        a < if n % 4 == 0 {
            4nat
        } else {
            2
        },
        j < n / if n % 4 == 0 {
            4nat
        } else {
            2
        },
    ensures
        ({
            let r = if n % 4 == 0 { 4nat } else { 2 };
            source(n, a * (n / r) + j) == a + r * source(n / r, j)
        }),
        source(1, 0) == 0,
{
    let r = if n % 4 == 0 { 4nat } else { 2 };
    let m = n / r;
    lemma_split(n);
    lemma_fundamental_div_mod_converse((a * m + j) as int, m as int, a as int, j as int);
}

} // verus!
