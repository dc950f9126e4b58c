//! What the bits of a spectral block mean.
//!
//! A pair of magnitudes is a list of symbols, each with a table; the tables
//! follow from the pairs around it. The laws here spell both out over the tables
//! that a model was made of and over the lines themselves.

use crate::decoder::usac::inverse;
use crate::encoder::usac::arith;
use crate::range;
use crate::range::Encoder;
use crate::tables::usac_arith;
use crate::tables::usac_arith::{ArithTables, History, Model, MAX_PAIRS};
use vstd::arithmetic::div_mod::*;
use vstd::arithmetic::power2::*;
use vstd::prelude::*;

verus! {

/// A symbol and the table it is coded with.
#[verifier::ext_equal]
pub struct Step {
    pub table: Seq<u16>,
    pub symbol: int,
}

/// The encoder after a list of symbols.
pub open spec fn coded(e: Encoder, steps: Seq<Step>) -> Encoder
    decreases steps.len(),
{
    if steps.len() == 0 {
        e
    } else {
        coded(e, steps.drop_last()).code(steps.last().table, steps.last().symbol)
    }
}

proof fn lemma_halved_is_quotient(x: int, k: nat)
    requires
        x >= 0,
    ensures
        arith::halved(x, k) == x / pow2(k) as int,
    decreases k,
{
    lemma2_to64();
    if k > 0 {
        lemma_halved_is_quotient(x, (k - 1) as nat);
        lemma_pow2_pos((k - 1) as nat);
        lemma_div_denominator(x, pow2((k - 1) as nat) as int, 2);
        lemma_pow2_unfold(k);
        assert(pow2((k - 1) as nat) * 2 == pow2(k));
    } else {
        assert(x / 1 == x);
    }
}

/// The least number of halvings after which both magnitudes are below four.
pub open spec fn is_level(a: int, b: int, n: nat) -> bool {
    &&& a < 4 * pow2(n)
    &&& b < 4 * pow2(n)
    &&& n > 0 ==> a >= 2 * pow2(n) || b >= 2 * pow2(n)
}

proof fn lemma_level(a: int, b: int, n: nat)
    requires
        a >= 0,
        b >= 0,
        is_level(a, b, n),
    ensures
        arith::levels(a, b) == n,
    decreases n,
{
    lemma2_to64();
    if n > 0 {
        lemma_pow2_unfold(n);
        lemma_pow2_pos((n - 1) as nat);
        let p = pow2((n - 1) as nat);
        if n > 1 {
            lemma_pow2_unfold((n - 1) as nat);
        }
        assert(a > 3 || b > 3);
        lemma_level(a / 2, b / 2, (n - 1) as nat);
    }
}

pub open spec fn at_most_seven(n: int) -> int {
    if n <= 7 {
        n
    } else {
        7
    }
}

/// The table for a pair after `escapes` escapes.
pub open spec fn pair_table(
    rows: Seq<u8>,
    symbols: Seq<[u16; 17]>,
    context: int,
    escapes: int,
) -> Seq<u16> {
    symbols[rows[context + 0x20000 * at_most_seven(escapes)] as int]@
}

/// Symbol `k` of a pair with `n` escapes. The escapes are 16; behind them come
/// the two highest bits of both magnitudes, and then, plane by plane, one bit of
/// each, those of the first magnitude lowest.
pub open spec fn pair_symbol(a: int, b: int, n: nat, k: int) -> int {
    if k < n {
        16
    } else if k == n {
        a / pow2(n) as int + 4 * (b / pow2(n) as int)
    } else {
        let below = (2 * n - k) as nat;
        (a / pow2(below) as int) % 2 + 2 * ((b / pow2(below) as int) % 2)
    }
}

/// Which of the three plane tables codes symbol `k`: the second while the first
/// magnitude has no bit yet, the first while only the second one has none, and
/// the third once both have.
pub open spec fn is_plane_of(a: int, b: int, n: nat, k: int, plane: int) -> bool {
    let above = (2 * n - k + 1) as nat;
    &&& plane == 1 <==> a < pow2(above)
    &&& plane == 0 <==> a >= pow2(above) && b < pow2(above)
    &&& plane == 2 <==> a >= pow2(above) && b >= pow2(above)
}

/// The symbols of a pair and the tables of each, as the arguments of
/// [`ArithTables::new`] have them.
pub open spec fn are_pair_steps(
    rows: Seq<u8>,
    symbols: Seq<[u16; 17]>,
    planes: [[u16; 4]; 3],
    context: int,
    a: int,
    b: int,
    n: nat,
    steps: Seq<Step>,
) -> bool {
    &&& steps.len() == 2 * n + 1
    &&& forall|k: int| 0 <= k < steps.len() ==> (#[trigger] steps[k]).symbol == pair_symbol(a, b, n, k)
    &&& forall|k: int|
        0 <= k <= n ==> (#[trigger] steps[k]).table == pair_table(rows, symbols, context, k)
    &&& forall|k: int, plane: int|
        n < k <= 2 * n && 0 <= plane < 3 && #[trigger] is_plane_of(a, b, n, k, plane)
            ==> (#[trigger] steps[k]).table == planes@[plane]@
}

proof fn lemma_escape_steps(m: Model, e: Encoder, context: int, k: nat, steps: Seq<Step>)
    requires
        k <= steps.len(),
        forall|i: int|
            0 <= i < k ==> (#[trigger] steps[i]).symbol == 16 && steps[i].table == m.symbol_table(
                context,
                arith::noted(i as nat),
            ),
    ensures
        coded(e, steps.take(k as int)) == arith::code_escapes(m, e, context, k),
    decreases k,
{
    if k > 0 {
        lemma_escape_steps(m, e, context, (k - 1) as nat, steps);
        assert(steps.take(k as int).drop_last() =~= steps.take(k - 1));
        assert(steps.take(k as int).last() == steps[k - 1]);
    } else {
        assert(steps.take(0) =~= Seq::empty());
    }
}

proof fn lemma_plane_steps(
    m: Model,
    e: Encoder,
    start: Encoder,
    a: int,
    b: int,
    n: nat,
    to: nat,
    steps: Seq<Step>,
)
    requires
        a >= 0,
        b >= 0,
        to <= n,
        steps.len() == 2 * n + 1,
        coded(start, steps.take(n as int + 1)) == e,
        forall|k: int|
            n < k <= 2 * n ==> (#[trigger] steps[k]).symbol == arith::plane(
                a,
                b,
                (2 * n - k) as nat,
            ) && steps[k].table == m.plane_table(
                arith::halved(a, (2 * n - k + 1) as nat),
                arith::halved(b, (2 * n - k + 1) as nat),
            ),
    ensures
        coded(start, steps.take(2 * n + 1 - to as int)) == arith::code_planes(m, e, a, b, n, to),
    decreases n - to,
{
    if to < n {
        lemma_plane_steps(m, e, start, a, b, n, to + 1, steps);
        let k = 2 * n - to;
        assert(steps.take(k + 1).drop_last() =~= steps.take(k));
        assert(steps.take(k + 1).last() == steps[k]);
    }
}

/// A pair is coded as these symbols with these tables: escapes, the two highest
/// bits of both magnitudes, and the planes below from the highest down.
pub proof fn law_pair_steps(
    rows: Vec<u8>,
    symbols: Vec<[u16; 17]>,
    planes: [[u16; 4]; 3],
    e: Encoder,
    context: int,
    a: int,
    b: int,
    n: nat,
    steps: Seq<Step>,
)
    requires
        ArithTables::described(rows, symbols, planes).is_valid(),
        0 <= context < 0x20000,
        0 <= a,
        0 <= b,
        is_level(a, b, n),
        are_pair_steps(rows@, symbols@, planes, context, a, b, n, steps),
    ensures
        arith::code_pair(ArithTables::described(rows, symbols, planes), e, context, a, b) == coded(
            e,
            steps,
        ),
{
    let m = ArithTables::described(rows, symbols, planes);
    lemma_level(a, b, n);
    lemma_halved_is_quotient(a, n);
    lemma_halved_is_quotient(b, n);
    assert forall|k: int| 0 <= k <= n implies (#[trigger] steps[k]).table == m.symbol_table(
        context,
        arith::noted(k as nat),
    ) by {
        let row = rows@[context + 0x20000 * at_most_seven(k)] as int;
        assert((m.rows[context + 0x20000 * at_most_seven(k)] as int) < m.symbols.len());
        assert(m.symbols[row] == symbols@[row]@);
    }
    lemma_escape_steps(m, e, context, n, steps);
    assert(steps.take(n as int + 1).drop_last() =~= steps.take(n as int));
    assert(steps.take(n as int + 1).last() == steps[n as int]);
    assert forall|k: int| n < k <= 2 * n implies (#[trigger] steps[k]).symbol == arith::plane(
        a,
        b,
        (2 * n - k) as nat,
    ) && steps[k].table == m.plane_table(
        arith::halved(a, (2 * n - k + 1) as nat),
        arith::halved(b, (2 * n - k + 1) as nat),
    ) by {
        let below = (2 * n - k) as nat;
        lemma_halved_is_quotient(a, below);
        lemma_halved_is_quotient(b, below);
        lemma_halved_is_quotient(a, below + 1);
        lemma_halved_is_quotient(b, below + 1);
        lemma_quotient_is_zero(a, below + 1);
        lemma_quotient_is_zero(b, below + 1);
        let p = pow2(below + 1);
        let plane: int = if a < p {
            1
        } else if b < p {
            0
        } else {
            2
        };
        assert(is_plane_of(a, b, n, k, plane));
        assert(m.planes[plane] == planes@[plane]@);
    }
    lemma_plane_steps(m, coded(e, steps.take(n as int + 1)), e, a, b, n, 0, steps);
    assert(steps.take(2 * n as int + 1) =~= steps);
}

proof fn lemma_quotient_is_zero(x: int, k: nat)
    requires
        x >= 0,
    ensures
        x / pow2(k) as int == 0 <==> x < pow2(k),
{
    lemma_pow2_pos(k);
    if x < pow2(k) {
        lemma_basic_div(x, pow2(k) as int);
    } else {
        lemma_div_non_zero(x, pow2(k) as int);
    }
}

/// A pair with one magnitude zero keeps to one plane table: the first where the
/// second magnitude is zero, the second where the first one is.
pub proof fn law_planes_of_a_quiet_line(a: int, n: nat, k: int)
    requires
        n < k <= 2 * n,
        2 * pow2(n) <= a,
    ensures
        is_plane_of(a, 0, n, k, 0),
        is_plane_of(0, a, n, k, 1),
        is_plane_of(a, a, n, k, 2),
{
    let above = (2 * n - k + 1) as nat;
    lemma_pow2_pos(above);
    if above < n {
        lemma_pow2_strictly_increases(above, n);
    }
}

/// How large a pair of lines was: the sum of their magnitudes and one, at most
/// fifteen.
pub open spec fn size_of(q: Seq<i32>, i: int) -> int {
    let sum = (if q[2 * i] < 0 {
        -q[2 * i]
    } else {
        q[2 * i] as int
    }) + (if q[2 * i + 1] < 0 {
        -q[2 * i + 1]
    } else {
        q[2 * i + 1] as int
    });
    if sum < 14 {
        sum + 1
    } else {
        15
    }
}

/// The size of a pair in front of pair `i`, none in front of the first.
pub open spec fn size_before(q: Seq<i32>, i: int) -> int {
    if i < 0 {
        0
    } else {
        size_of(q, i)
    }
}

/// The size of a pair of the block before; none outside it.
pub open spec fn size_above(h: History, i: int) -> int {
    if 0 <= i < MAX_PAIRS {
        h.prev[i] as int
    } else {
        0
    }
}

proof fn lemma_pres(m: Model, h: History, q: Seq<i32>, n: nat, i: nat, j: int)
    requires
        h.is_valid(),
        forall|k: int| 0 <= k < MAX_PAIRS ==> #[trigger] h.pres[k] == 0,
        arith::codable(q, n),
        i <= n <= MAX_PAIRS,
        j < i,
    ensures
        usac_arith::entry(arith::code_pairs(m, h, q, i).history.pres, j) == size_before(q, j),
        arith::code_pairs(m, h, q, i).history.prev == h.prev,
        arith::code_pairs(m, h, q, i).history.pres.len() == MAX_PAIRS,
    decreases i,
{
    if i > 0 {
        if j < i - 1 {
            lemma_pres(m, h, q, n, (i - 1) as nat, j);
        } else {
            lemma_pres(m, h, q, n, (i - 1) as nat, j - 1);
            assert(arith::magnitude(q[2 * j]) + arith::magnitude(q[2 * j + 1]) < i32::MAX);
        }
    }
}

/// The context of pair `i` is four numbers of four bits: the sizes of the pairs
/// above it to the right, above it, and above it to the left, in the block
/// before, and of the pair just coded; and a bit that is set if the last three
/// pairs, from the fifth pair on, were small.
pub proof fn law_context_of_a_pair(m: Model, h: History, q: Seq<i32>, n: nat, i: nat)
    requires
        h.is_valid(),
        forall|k: int| 0 <= k < MAX_PAIRS ==> #[trigger] h.pres[k] == 0,
        arith::codable(q, n),
        i < n <= MAX_PAIRS,
    ensures
        ({
            let p = arith::code_pairs(m, h, q, i);
            let at = i as int;
            let quiet = at >= 4 && size_of(q, at - 1) + size_of(q, at - 2) + size_of(q, at - 3) < 5;
            p.history.context(at, p.state) == 0x1000 * size_above(h, at + 1) + 0x100 * size_above(
                h,
                at,
            ) + 0x10 * size_above(h, at - 1) + size_before(q, at - 1) + if quiet {
                0x10000int
            } else {
                0
            }
        }),
{
    let p = arith::code_pairs(m, h, q, i);
    let at = i as int;
    lemma_state(m, h, q, n, i);
    lemma_pres(m, h, q, n, i, at - 1);
    lemma_pres(m, h, q, n, i, at - 2);
    lemma_pres(m, h, q, n, i, at - 3);
    lemma_above(h, at + 1);
    lemma_above(h, at);
    lemma_above(h, at - 1);
    lemma_above(h, at - 2);
    lemma_size(q, n, at - 1);
    lemma_size(q, n, at - 2);
    lemma_carried(
        size_above(h, at),
        size_above(h, at - 1),
        size_above(h, at - 2),
        size_before(q, at - 2),
        size_above(h, at + 1),
    );
}

proof fn lemma_carried(a: int, b: int, c: int, d: int, new: int)
    requires
        0 <= a <= 15,
        0 <= b <= 15,
        0 <= c <= 15,
        0 <= d <= 15,
        0 <= new <= 15,
    ensures
        (((0x1000 * a + 0x100 * b + 0x10 * c + d) / 16 + new * 4096) % 65536) / 16 * 16 == 0x1000
            * new + 0x100 * a + 0x10 * b,
{
}

proof fn lemma_above(h: History, i: int)
    requires
        h.is_valid(),
    ensures
        0 <= size_above(h, i) <= 15,
        usac_arith::entry(h.prev, i) == size_above(h, i),
{
    if 0 <= i < MAX_PAIRS {
        assert(h.prev[i] <= 15);
    }
}

proof fn lemma_size(q: Seq<i32>, n: nat, i: int)
    requires
        arith::codable(q, n),
        i < n,
    ensures
        0 <= size_before(q, i) <= 15,
{
}

proof fn lemma_state(m: Model, h: History, q: Seq<i32>, n: nat, i: nat)
    requires
        h.is_valid(),
        forall|k: int| 0 <= k < MAX_PAIRS ==> #[trigger] h.pres[k] == 0,
        arith::codable(q, n),
        i <= n <= MAX_PAIRS,
    ensures
        arith::code_pairs(m, h, q, i).state == 0x1000 * size_above(h, i as int) + 0x100
            * size_above(h, i - 1) + 0x10 * size_above(h, i - 2) + size_before(q, i - 2),
    decreases i,
{
    if i > 0 {
        let at = i - 1;
        lemma_state(m, h, q, n, (i - 1) as nat);
        lemma_pres(m, h, q, n, (i - 1) as nat, at - 1);
        lemma_above(h, at + 1);
        lemma_above(h, at);
        lemma_above(h, at - 1);
        lemma_above(h, at - 2);
        lemma_size(q, n, at - 1);
        lemma_size(q, n, at - 2);
        lemma_carried(
            size_above(h, at),
            size_above(h, at - 1),
            size_above(h, at - 2),
            size_before(q, at - 2),
            size_above(h, at + 1),
        );
    } else {
        lemma_above(h, 0);
    }
}

/// After a block its pairs are the block above the next one: coded pairs by
/// their size, pairs beyond as coded zeros, and nothing beyond the block. Of the
/// next block nothing is known yet.
pub proof fn law_contexts_after_a_block(
    m: Model,
    h: History,
    q: Seq<i32>,
    n: nat,
    pres_len: int,
    i: int,
)
    requires
        h.is_valid(),
        forall|k: int| 0 <= k < MAX_PAIRS ==> #[trigger] h.pres[k] == 0,
        arith::codable(q, n),
        n <= pres_len <= MAX_PAIRS,
        0 <= i < MAX_PAIRS,
    ensures
        ({
            let after = arith::block_history(m, h, q, n, pres_len);
            &&& after.pres[i] == 0
            &&& after.prev[i] == if i < n {
                size_of(q, i)
            } else if i < pres_len {
                1
            } else {
                0
            }
        }),
{
    if i < n {
        lemma_pres(m, h, q, n, n, i);
    } else if n > 0 {
        lemma_pres(m, h, q, n, n, 0);
    }
    assert(arith::code_pairs(m, h, q, n).history.pres.len() == MAX_PAIRS) by {
        if n == 0 {
        } else {
            lemma_pres(m, h, q, n, n, 0);
        }
    }
    assert(arith::code_pairs(m, h, q, n).history.prev.len() == MAX_PAIRS) by {
        if n == 0 {
        } else {
            lemma_pres(m, h, q, n, n, 0);
        }
    }
}

/// The lines among the first `k` that are not zero.
pub open spec fn loud_lines(q: Seq<i32>, k: nat) -> nat
    decreases k,
{
    if k == 0 {
        0
    } else {
        loud_lines(q, (k - 1) as nat) + if q[k - 1] != 0 {
            1nat
        } else {
            0
        }
    }
}

/// There is one sign bit for each line that is not zero, in the order of the
/// lines, and it is set for a positive one.
pub proof fn law_sign_bits(q: Seq<i32>, k: nat, i: int)
    requires
        0 <= i < k,
        q[i] != 0,
    ensures
        arith::sign_bits(q, k).len() == loud_lines(q, k),
        loud_lines(q, i as nat) < loud_lines(q, k),
        arith::sign_bits(q, k)[loud_lines(q, i as nat) as int] == (q[i] > 0),
    decreases k,
{
    lemma_sign_count(q, k);
    lemma_sign_count(q, (k - 1) as nat);
    if i < k - 1 {
        law_sign_bits(q, (k - 1) as nat, i);
    }
}

proof fn lemma_sign_count(q: Seq<i32>, k: nat)
    ensures
        arith::sign_bits(q, k).len() == loud_lines(q, k),
    decreases k,
{
    if k > 0 {
        lemma_sign_count(q, (k - 1) as nat);
    }
}

proof fn lemma_first_bound(c: int)
    ensures
        range::bound(0, 65535, c) == 4 * c,
{
    let w: int = 65536;
    assert((65535int - 0int + 1int) * c == w * c);
    assert((w * c) / 16384 == 4 * c) by (nonlinear_arith)
        requires
            w == 65536,
    ;
}

/// The first sixteen bits of a block, as a number, fall into the part of the
/// range that belongs to its first symbol: four times its cumulative frequency
/// and above, and below four times that of the symbol before it.
pub proof fn law_first_symbol(m: Model, h: History, q: Seq<i32>, n: nat, rest: Seq<bool>)
    requires
        m.is_valid(),
        h.is_valid(),
        arith::codable(q, n),
        0 < n <= MAX_PAIRS,
        -3 <= q[0] <= 3,
        -3 <= q[1] <= 3,
    ensures
        ({
            let first = range::window(arith::block_bits(m, h, q, n) + rest, 16);
            let table = m.symbols[m.rows[h.context(0, h.first_state())] as int];
            let symbol = arith::magnitude(q[0]) + 4 * arith::magnitude(q[1]);
            &&& 4 * table[symbol] <= first
            &&& symbol > 0 ==> first < 4 * table[symbol - 1]
            &&& symbol == 0 ==> first <= 65535
        }),
{
    let s = arith::block_bits(m, h, q, n) + rest;
    let a = arith::magnitude(q[0]);
    let b = arith::magnitude(q[1]);
    let context = h.context(0, h.first_state());
    let table = m.symbols[m.rows[context] as int];
    let symbol = a + 4 * b;
    inverse::lemma_block_covers(m, h, q, n, rest, 1);
    let e = Encoder::start(Seq::empty());
    usac_arith::lemma_context_range(h, 0, 0);
    usac_arith::lemma_context_range(h, 0, h.first_state());
    assert((m.rows[context] as int) < m.symbols.len());
    assert(range::is_table(table) && table.len() == 17);
    assert(arith::levels(a, b) == 0);
    assert(arith::halved(a, 0) == a && arith::halved(b, 0) == b);
    assert(arith::code_pair(m, e, context, a, b) == e.code(table, symbol)) by {
        assert(arith::code_escapes(m, e, context, 0) == e);
        assert(m.symbol_table(context, 0) == table);
    }
    reveal_with_fuel(arith::code_pairs, 2);
    assert(arith::code_pairs(m, h, q, 1).coder == e.code(table, symbol));
    range::lemma_covers_code(e, table, symbol, s);
    crate::bits::lemma_empty();
    lemma2_to64();
    lemma_first_bound(table[symbol] as int);
    if symbol > 0 {
        lemma_first_bound(table[symbol - 1] as int);
    }
    let narrowed = e.narrow(table, symbol);
    assert(narrowed.base() == 0);
    assert(narrowed.out.len() + narrowed.pending + 16 == 16);
}

} // verus!
