//! How a block of coded pairs ends early.

use crate::decoder::usac::arith;
use crate::range::Decoder;
use crate::tables::usac_arith::{History, Model};
use vstd::prelude::*;

verus! {

proof fn lemma_lines(m: Model, h: History, s: Seq<bool>, i: nat)
    ensures
        arith::read_pairs(m, h, s, i).status is Open ==> arith::read_pairs(m, h, s, i).lines.len()
            == 2 * i,
    decreases i,
{
    if i > 0 {
        lemma_lines(m, h, s, (i - 1) as nat);
    }
}

/// A pair of zeros behind an escape stops a block: no pair follows, the lines
/// from there on are zero, and the contexts are those of the pairs before. The
/// decoder stands behind the symbol.
pub proof fn law_early_stop(
    m: Model,
    h: History,
    s: Seq<bool>,
    i: nat,
    n: nat,
    escapes: nat,
    behind: Decoder,
    before: Seq<i32>,
    k: int,
)
    requires
        i < n,
        arith::read_pairs(m, h, s, i).status is Open,
        ({
            let p = arith::read_pairs(m, h, s, i);
            arith::read_symbol(m, p.coder, s, p.history.context(i as int, p.state), 0) == Some(
                (0int, escapes, behind),
            )
        }),
        escapes > 0,
        2 * n <= before.len(),
    ensures
        ({
            let p = arith::read_pairs(m, h, s, i);
            let q = arith::read_pairs(m, h, s, n);
            let left = arith::filled(q.lines, n as int, before);
            &&& q.lines == p.lines
            &&& q.history == p.history
            &&& q.coder == behind
            &&& !(q.status is Corrupt)
            &&& left.len() == before.len()
            &&& 2 * i <= k < 2 * n ==> left[k] == 0
            &&& 2 * n <= k < before.len() ==> left[k] == before[k]
            &&& 0 <= k < 2 * i ==> left[k] == p.lines[k] as i32
        }),
    decreases n,
{
    lemma_lines(m, h, s, i);
    if i + 1 < n {
        law_early_stop(m, h, s, i, (n - 1) as nat, escapes, behind, before, k);
        lemma_stopped(m, h, s, i, (n - 1) as nat, escapes, behind);
    }
}

proof fn lemma_stopped(
    m: Model,
    h: History,
    s: Seq<bool>,
    i: nat,
    n: nat,
    escapes: nat,
    behind: Decoder,
)
    requires
        i < n,
        arith::read_pairs(m, h, s, i).status is Open,
        ({
            let p = arith::read_pairs(m, h, s, i);
            arith::read_symbol(m, p.coder, s, p.history.context(i as int, p.state), 0) == Some(
                (0int, escapes, behind),
            )
        }),
        escapes > 0,
    ensures
        arith::read_pairs(m, h, s, n).status is Stopped,
        arith::read_pairs(m, h, s, n).lines == arith::read_pairs(m, h, s, i).lines,
        arith::read_pairs(m, h, s, n).history == arith::read_pairs(m, h, s, i).history,
        arith::read_pairs(m, h, s, n).coder == behind,
    decreases n,
{
    if i + 1 < n {
        lemma_stopped(m, h, s, i, (n - 1) as nat, escapes, behind);
    }
}

/// A pair of zeros without an escape is a pair like any other.
pub proof fn law_pair_of_zeros(m: Model, h: History, s: Seq<bool>, i: nat, behind: Decoder)
    requires
        arith::read_pairs(m, h, s, i).status is Open,
        ({
            let p = arith::read_pairs(m, h, s, i);
            arith::read_symbol(m, p.coder, s, p.history.context(i as int, p.state), 0) == Some(
                (0int, 0nat, behind),
            )
        }),
    ensures
        ({
            let q = arith::read_pairs(m, h, s, i + 1);
            &&& q.status is Open
            &&& q.coder == behind
            &&& q.lines == arith::read_pairs(m, h, s, i).lines + seq![0, 0]
        }),
{
    assert(arith::read_pairs(m, h, s, i).lines.push(0).push(0) =~= arith::read_pairs(
        m,
        h,
        s,
        i,
    ).lines + seq![0, 0]);
}

} // verus!
