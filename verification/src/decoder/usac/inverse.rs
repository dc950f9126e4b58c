//! Decoding a block of spectral pairs undoes encoding it.

use crate::bits;
use crate::decoder::usac::arith as decoding;
use crate::encoder::usac::arith as encoding;
use crate::range;
use crate::range::{Decoder, Encoder};
use crate::tables::usac_arith;
use crate::tables::usac_arith::{History, Model, ESCAPE, MAX_PAIRS};
use vstd::prelude::*;

verus! {

proof fn lemma_symbol_table(m: Model, context: int, escapes: nat)
    requires
        m.is_valid(),
        0 <= context < 0x20000,
    ensures
        range::is_table(m.symbol_table(context, encoding::noted(escapes))),
        m.symbol_table(context, encoding::noted(escapes)).len() == 17,
{
    let c = context + encoding::noted(escapes) * 0x20000;
    assert((m.rows[c] as int) < m.symbols.len());
    assert(m.symbols[m.rows[c] as int].len() == 17);
}

proof fn lemma_plane_table(m: Model, a: int, b: int)
    requires
        m.is_valid(),
    ensures
        range::is_table(m.plane_table(a, b)),
        m.plane_table(a, b).len() == 4,
{
    assert(m.planes[0].len() == 4 && m.planes[1].len() == 4 && m.planes[2].len() == 4);
}

proof fn lemma_escapes_settled(m: Model, e: Encoder, context: int, n: nat)
    requires
        m.is_valid(),
        0 <= context < 0x20000,
        range::is_settled(e.low, e.high),
    ensures
        range::is_settled(
            encoding::code_escapes(m, e, context, n).low,
            encoding::code_escapes(m, e, context, n).high,
        ),
    decreases n,
{
    if n > 0 {
        let k = (n - 1) as nat;
        lemma_escapes_settled(m, e, context, k);
        lemma_symbol_table(m, context, k);
        range::lemma_coded_is_settled(
            encoding::code_escapes(m, e, context, k),
            m.symbol_table(context, encoding::noted(k)),
            ESCAPE as int,
        );
    }
}

/// A stream that ends inside the interval after `n` escapes ends inside the
/// interval after fewer.
proof fn lemma_escapes_covers(m: Model, e: Encoder, context: int, k: nat, n: nat, s: Seq<bool>)
    requires
        m.is_valid(),
        0 <= context < 0x20000,
        range::is_settled(e.low, e.high),
        k <= n,
        encoding::code_escapes(m, e, context, n).covers(s),
    ensures
        encoding::code_escapes(m, e, context, k).covers(s),
    decreases n,
{
    if k < n {
        let j = (n - 1) as nat;
        lemma_escapes_settled(m, e, context, j);
        lemma_symbol_table(m, context, j);
        range::lemma_covers_code(
            encoding::code_escapes(m, e, context, j),
            m.symbol_table(context, encoding::noted(j)),
            ESCAPE as int,
            s,
        );
        lemma_escapes_covers(m, e, context, k, j, s);
    }
}

proof fn lemma_planes_settled(m: Model, e: Encoder, a: int, b: int, from: nat, to: nat)
    requires
        m.is_valid(),
        range::is_settled(e.low, e.high),
    ensures
        range::is_settled(
            encoding::code_planes(m, e, a, b, from, to).low,
            encoding::code_planes(m, e, a, b, from, to).high,
        ),
    decreases from - to,
{
    if to < from {
        lemma_planes_settled(m, e, a, b, from, to + 1);
        let t = m.plane_table(encoding::halved(a, to + 1), encoding::halved(b, to + 1));
        lemma_plane_table(m, encoding::halved(a, to + 1), encoding::halved(b, to + 1));
        range::lemma_coded_is_settled(
            encoding::code_planes(m, e, a, b, from, to + 1),
            t,
            encoding::plane(a, b, to),
        );
    }
}

proof fn lemma_planes_covers(
    m: Model,
    e: Encoder,
    a: int,
    b: int,
    from: nat,
    to: nat,
    k: nat,
    s: Seq<bool>,
)
    requires
        m.is_valid(),
        range::is_settled(e.low, e.high),
        to <= k <= from,
        encoding::code_planes(m, e, a, b, from, to).covers(s),
    ensures
        encoding::code_planes(m, e, a, b, from, k).covers(s),
    decreases k - to,
{
    if to < k {
        let t = m.plane_table(encoding::halved(a, to + 1), encoding::halved(b, to + 1));
        lemma_plane_table(m, encoding::halved(a, to + 1), encoding::halved(b, to + 1));
        lemma_planes_settled(m, e, a, b, from, to + 1);
        range::lemma_covers_code(
            encoding::code_planes(m, e, a, b, from, to + 1),
            t,
            encoding::plane(a, b, to),
            s,
        );
        lemma_planes_covers(m, e, a, b, from, to + 1, k, s);
    }
}

/// From `k` escapes on, the decoder finds the remaining escapes and the
/// symbol.
proof fn lemma_symbol_follows(
    m: Model,
    d: Decoder,
    e: Encoder,
    context: int,
    k: nat,
    n: nat,
    x: int,
    s: Seq<bool>,
)
    requires
        m.is_valid(),
        0 <= context < 0x20000,
        range::is_settled(e.low, e.high),
        k <= n <= 29,
        0 <= x < ESCAPE,
        range::follows(d, encoding::code_escapes(m, e, context, k), s),
        encoding::code_escapes(m, e, context, n).code(
            m.symbol_table(context, encoding::noted(n)),
            x,
        ).covers(s),
    ensures
        ({
            let last = encoding::code_escapes(m, e, context, n).code(
                m.symbol_table(context, encoding::noted(n)),
                x,
            );
            &&& decoding::read_symbol(m, d, s, context, k) is Some
            &&& (decoding::read_symbol(m, d, s, context, k)->0).0 == x
            &&& (decoding::read_symbol(m, d, s, context, k)->0).1 == n
            &&& range::follows((decoding::read_symbol(m, d, s, context, k)->0).2, last, s)
            &&& range::is_settled(last.low, last.high)
        }),
    decreases n - k,
{
    lemma_symbol_table(m, context, n);
    lemma_escapes_settled(m, e, context, n);
    let all = encoding::code_escapes(m, e, context, n);
    let tn = m.symbol_table(context, encoding::noted(n));
    range::lemma_covers_code(all, tn, x, s);
    if k == n {
        range::lemma_next_follows(d, all, tn, x, s);
    } else {
        let now = encoding::code_escapes(m, e, context, k);
        let t = m.symbol_table(context, encoding::noted(k));
        lemma_symbol_table(m, context, k);
        lemma_escapes_settled(m, e, context, k);
        lemma_escapes_covers(m, e, context, k + 1, n, s);
        assert(encoding::code_escapes(m, e, context, k + 1) == now.code(t, ESCAPE as int));
        range::lemma_next_follows(d, now, t, ESCAPE as int, s);
        lemma_symbol_follows(m, d.next(t, s), e, context, k + 1, n, x, s);
    }
}

/// From plane `k` on, the decoder finds the remaining bits of both magnitudes.
proof fn lemma_planes_follow(
    m: Model,
    d: Decoder,
    e: Encoder,
    a: int,
    b: int,
    n: nat,
    k: nat,
    s: Seq<bool>,
)
    requires
        m.is_valid(),
        range::is_settled(e.low, e.high),
        a >= 0,
        b >= 0,
        k <= n,
        range::follows(d, encoding::code_planes(m, e, a, b, n, k), s),
        encoding::code_planes(m, e, a, b, n, 0).covers(s),
    ensures
        ({
            let r = decoding::read_planes(
                m,
                d,
                s,
                encoding::halved(a, k),
                encoding::halved(b, k),
                k,
            );
            &&& r.0 == a
            &&& r.1 == b
            &&& range::follows(r.2, encoding::code_planes(m, e, a, b, n, 0), s)
        }),
    decreases k,
{
    if k > 0 {
        let j = (k - 1) as nat;
        let now = encoding::code_planes(m, e, a, b, n, k);
        let ha = encoding::halved(a, k);
        let hb = encoding::halved(b, k);
        let t = m.plane_table(ha, hb);
        let x = encoding::plane(a, b, j);
        lemma_plane_table(m, ha, hb);
        lemma_planes_settled(m, e, a, b, n, k);
        lemma_planes_covers(m, e, a, b, n, 0, j, s);
        assert(encoding::code_planes(m, e, a, b, n, j) == now.code(t, x));
        range::lemma_next_follows(d, now, t, x, s);
        encoding::lemma_halved(a, j);
        encoding::lemma_halved(b, j);
        assert(2 * ha + x % 2 == encoding::halved(a, j));
        assert(2 * hb + x / 2 == encoding::halved(b, j));
        lemma_planes_follow(m, d.next(t, s), e, a, b, n, j, s);
    }
}

proof fn lemma_pair_settled(m: Model, e: Encoder, context: int, a: int, b: int)
    requires
        m.is_valid(),
        0 <= context < 0x20000,
        range::is_settled(e.low, e.high),
        a >= 0,
        b >= 0,
    ensures
        range::is_settled(
            encoding::code_pair(m, e, context, a, b).low,
            encoding::code_pair(m, e, context, a, b).high,
        ),
{
    let n = encoding::levels(a, b);
    let t = m.symbol_table(context, encoding::noted(n));
    let x = encoding::halved(a, n) + 4 * encoding::halved(b, n);
    encoding::lemma_levels_end(a, b);
    lemma_symbol_table(m, context, n);
    lemma_escapes_settled(m, e, context, n);
    let e1 = encoding::code_escapes(m, e, context, n);
    range::lemma_coded_is_settled(e1, t, x);
    lemma_planes_settled(m, e1.code(t, x), a, b, n, 0);
}

proof fn lemma_pair_covers(m: Model, e: Encoder, context: int, a: int, b: int, s: Seq<bool>)
    requires
        m.is_valid(),
        0 <= context < 0x20000,
        range::is_settled(e.low, e.high),
        a >= 0,
        b >= 0,
        encoding::code_pair(m, e, context, a, b).covers(s),
    ensures
        e.covers(s),
{
    let n = encoding::levels(a, b);
    let t = m.symbol_table(context, encoding::noted(n));
    let x = encoding::halved(a, n) + 4 * encoding::halved(b, n);
    encoding::lemma_levels_end(a, b);
    lemma_symbol_table(m, context, n);
    lemma_escapes_settled(m, e, context, n);
    let e1 = encoding::code_escapes(m, e, context, n);
    range::lemma_coded_is_settled(e1, t, x);
    lemma_planes_covers(m, e1.code(t, x), a, b, n, 0, n, s);
    range::lemma_covers_code(e1, t, x, s);
    lemma_escapes_covers(m, e, context, 0, n, s);
}

/// The decoder finds the pair that was coded.
proof fn lemma_pair_follows(
    m: Model,
    p: decoding::Progress,
    e: Encoder,
    at: int,
    a: int,
    b: int,
    s: Seq<bool>,
)
    requires
        m.is_valid(),
        0 <= p.history.context(at, p.state) < 0x20000,
        range::is_settled(e.low, e.high),
        a >= 0,
        b >= 0,
        a + b < i32::MAX,
        range::follows(p.coder, e, s),
        encoding::code_pair(m, e, p.history.context(at, p.state), a, b).covers(s),
    ensures
        ({
            let r = decoding::read_pair(m, p, s, at);
            &&& r.status is Open
            &&& range::follows(
                r.coder,
                encoding::code_pair(m, e, p.history.context(at, p.state), a, b),
                s,
            )
            &&& r.history == p.history.with_pair(at, usac_arith::pair_size(a, b))
            &&& r.state == p.history.carried(at, p.state)
            &&& r.lines == p.lines.push(a).push(b)
        }),
{
    let context = p.history.context(at, p.state);
    let n = encoding::levels(a, b);
    let t = m.symbol_table(context, encoding::noted(n));
    let ha = encoding::halved(a, n);
    let hb = encoding::halved(b, n);
    let x = ha + 4 * hb;
    encoding::lemma_levels_of_i32(a, b);
    encoding::lemma_levels_end(a, b);
    lemma_symbol_table(m, context, n);
    lemma_escapes_settled(m, e, context, n);
    let e1 = encoding::code_escapes(m, e, context, n);
    let e2 = e1.code(t, x);
    range::lemma_coded_is_settled(e1, t, x);
    lemma_planes_covers(m, e2, a, b, n, 0, n, s);
    lemma_symbol_follows(m, p.coder, e, context, 0, n, x, s);
    let d = (decoding::read_symbol(m, p.coder, s, context, 0)->0).2;
    lemma_planes_follow(m, d, e2, a, b, n, n, s);
    if x == 0 {
        assert(n == 0);
        assert(encoding::halved(a, 0) == a && encoding::halved(b, 0) == b);
    }
}

/// What holds of the contexts and the coder after any number of pairs.
proof fn lemma_pairs_valid(m: Model, h: History, q: Seq<i32>, n: nat, i: nat)
    requires
        m.is_valid(),
        h.is_valid(),
        encoding::codable(q, n),
        n <= MAX_PAIRS,
        i <= n,
    ensures
        ({
            let p = encoding::code_pairs(m, h, q, i);
            &&& p.history.is_valid()
            &&& 0 <= p.state < 65536
            &&& range::is_settled(p.coder.low, p.coder.high)
        }),
    decreases i,
{
    usac_arith::lemma_context_range(h, 0, 0);
    if i > 0 {
        let at = i - 1;
        lemma_pairs_valid(m, h, q, n, (i - 1) as nat);
        let p = encoding::code_pairs(m, h, q, (i - 1) as nat);
        usac_arith::lemma_context_range(p.history, at, p.state);
        assert(encoding::magnitude(q[2 * at]) + encoding::magnitude(q[2 * at + 1]) < i32::MAX);
        lemma_pair_settled(
            m,
            p.coder,
            p.history.context(at, p.state),
            encoding::magnitude(q[2 * at]),
            encoding::magnitude(q[2 * at + 1]),
        );
    }
}

proof fn lemma_pairs_cover(
    m: Model,
    h: History,
    q: Seq<i32>,
    n: nat,
    i: nat,
    j: nat,
    s: Seq<bool>,
)
    requires
        m.is_valid(),
        h.is_valid(),
        encoding::codable(q, n),
        n <= MAX_PAIRS,
        i <= j <= n,
        encoding::code_pairs(m, h, q, j).coder.covers(s),
    ensures
        encoding::code_pairs(m, h, q, i).coder.covers(s),
    decreases j,
{
    if i < j {
        let at = j - 1;
        let k = (j - 1) as nat;
        lemma_pairs_valid(m, h, q, n, k);
        let p = encoding::code_pairs(m, h, q, k);
        usac_arith::lemma_context_range(p.history, at, p.state);
        lemma_pair_covers(
            m,
            p.coder,
            p.history.context(at, p.state),
            encoding::magnitude(q[2 * at]),
            encoding::magnitude(q[2 * at + 1]),
            s,
        );
        lemma_pairs_cover(m, h, q, n, i, k, s);
    }
}

/// The magnitudes of the first `k` lines.
spec fn magnitudes(q: Seq<i32>, k: nat) -> Seq<int> {
    Seq::new(k, |i: int| encoding::magnitude(q[i]))
}

proof fn lemma_pairs_follow(m: Model, h: History, q: Seq<i32>, n: nat, i: nat, s: Seq<bool>)
    requires
        m.is_valid(),
        h.is_valid(),
        encoding::codable(q, n),
        n <= MAX_PAIRS,
        i <= n,
        encoding::code_pairs(m, h, q, n).coder.covers(s),
    ensures
        ({
            let e = encoding::code_pairs(m, h, q, i);
            let d = decoding::read_pairs(m, h, s, i);
            &&& range::follows(d.coder, e.coder, s)
            &&& d.history == e.history
            &&& d.state == e.state
            &&& d.lines == magnitudes(q, 2 * i)
            &&& d.status is Open
        }),
    decreases i,
{
    if i == 0 {
        range::lemma_start_follows(s);
        assert(magnitudes(q, 0) =~= Seq::empty());
    } else {
        let at = i - 1;
        let k = (i - 1) as nat;
        lemma_pairs_follow(m, h, q, n, k, s);
        lemma_pairs_valid(m, h, q, n, k);
        lemma_pairs_cover(m, h, q, n, i, n, s);
        let e = encoding::code_pairs(m, h, q, k);
        let d = decoding::read_pairs(m, h, s, k);
        usac_arith::lemma_context_range(e.history, at, e.state);
        let a = encoding::magnitude(q[2 * at]);
        let b = encoding::magnitude(q[2 * at + 1]);
        lemma_pair_follows(m, d, e.coder, at, a, b, s);
        assert(magnitudes(q, 2 * k).push(a).push(b) =~= magnitudes(q, 2 * i));
    }
}

proof fn lemma_sign_prefix(q: Seq<i32>, i: nat, j: nat)
    requires
        i <= j,
    ensures
        encoding::sign_bits(q, i).len() <= encoding::sign_bits(q, j).len(),
        encoding::sign_bits(q, j).take(encoding::sign_bits(q, i).len() as int)
            == encoding::sign_bits(q, i),
    decreases j,
{
    if i < j {
        let k = (j - 1) as nat;
        lemma_sign_prefix(q, i, k);
        let n = encoding::sign_bits(q, i).len() as int;
        assert(encoding::sign_bits(q, j).take(n) =~= encoding::sign_bits(q, k).take(n));
    } else {
        let x = encoding::sign_bits(q, i);
        assert(x.take(x.len() as int) =~= x);
    }
}

/// The signs that were written are the signs that are read.
proof fn lemma_signs(q: Seq<i32>, n: nat, k: nat, s: Seq<bool>, from: int)
    requires
        k <= n <= q.len(),
        0 <= from,
        from + encoding::sign_bits(q, n).len() <= s.len(),
        s.subrange(from, from + encoding::sign_bits(q, n).len()) == encoding::sign_bits(q, n),
    ensures
        decoding::signed(magnitudes(q, n), s, from, k) == (
            Seq::new(k, |i: int| q[i] as int),
            from + encoding::sign_bits(q, k).len(),
        ),
    decreases k,
{
    let want = Seq::new(k, |i: int| q[i] as int);
    if k == 0 {
        assert(want =~= Seq::empty());
    } else {
        let j = (k - 1) as nat;
        lemma_signs(q, n, j, s, from);
        lemma_sign_prefix(q, k, n);
        let before = Seq::new(j, |i: int| q[i] as int);
        let at = encoding::sign_bits(q, j).len() as int;
        if q[k - 1] != 0 {
            let all = encoding::sign_bits(q, n);
            assert(encoding::sign_bits(q, k)[at] == (q[k - 1] > 0));
            assert(all.take(encoding::sign_bits(q, k).len() as int)[at] == all[at]);
            assert(s.subrange(from, from + all.len())[at] == s[from + at]);
        }
        assert(before.push(q[k - 1] as int) =~= want);
    }
}

/// Decoding the bits of a block gives back the lines that were encoded,
/// whatever follows the block, and stops exactly behind it.
///
/// `h` are the contexts that the encoder starts the block with and `dh` those
/// of the decoder, which moves on to the block before it reads it. Afterwards
/// the same relation holds between the two, so that a block may follow a
/// block.
pub proof fn law_pairs_roundtrip(
    m: Model,
    h: History,
    dh: History,
    q: Seq<i32>,
    n: nat,
    pres_len: int,
    rest: Seq<bool>,
)
    requires
        m.is_valid(),
        h.is_valid(),
        dh.advanced(pres_len) == h,
        encoding::codable(q, n),
        n <= pres_len <= MAX_PAIRS,
    ensures
        ({
            let block = encoding::block_bits(m, h, q, n);
            let s = block + rest;
            &&& decoding::decodable(m, h, s, n)
            &&& decoding::decoded(m, h, s, n).0 == Seq::new(2 * n, |i: int| q[i] as int)
            &&& decoding::decoded(m, h, s, n).1 == block.len()
            &&& decoding::after(s, block.len() as int) == rest
            &&& decoding::decoded_history(m, h, s, n, pres_len).advanced(pres_len)
                == encoding::block_history(m, h, q, n, pres_len)
            &&& encoding::block_history(m, h, q, n, pres_len).is_valid()
        }),
{
    let e = encoding::code_pairs(m, h, q, n).coder;
    let signs = encoding::sign_bits(q, 2 * n);
    let block = encoding::block_bits(m, h, q, n);
    let s = block + rest;
    let coded = e.finish().len() as int;
    assert(s.take(coded) =~= e.finish());
    lemma_pairs_valid(m, h, q, n, n);
    range::lemma_finish_covers(e, s);
    lemma_pairs_follow(m, h, q, n, n, s);
    assert(s.subrange(coded, coded + signs.len()) =~= signs);
    lemma_signs(q, 2 * n, 2 * n, s, coded);
    assert(decoding::after(s, block.len() as int) =~= rest);
}

/// A stream that starts with a block ends inside the interval after each of its
/// pairs.
pub(crate) proof fn lemma_block_covers(
    m: Model,
    h: History,
    q: Seq<i32>,
    n: nat,
    rest: Seq<bool>,
    i: nat,
)
    requires
        m.is_valid(),
        h.is_valid(),
        encoding::codable(q, n),
        n <= MAX_PAIRS,
        i <= n,
    ensures
        encoding::code_pairs(m, h, q, i).coder.covers(encoding::block_bits(m, h, q, n) + rest),
{
    let e = encoding::code_pairs(m, h, q, n).coder;
    let s = encoding::block_bits(m, h, q, n) + rest;
    assert(s.take(e.finish().len() as int) =~= e.finish());
    lemma_pairs_valid(m, h, q, n, n);
    range::lemma_finish_covers(e, s);
    lemma_pairs_cover(m, h, q, n, i, n, s);
}

/// An encoder and a decoder that both start afresh stand in the relation that
/// a block needs.
pub proof fn law_fresh_contexts_agree(pres_len: int)
    requires
        0 <= pres_len <= MAX_PAIRS,
    ensures
        History::fresh().is_valid(),
        History::fresh().advanced(pres_len) == History::fresh(),
{
    assert(History::fresh().advanced(pres_len) =~= History::fresh());
}

/// Two blocks that were encoded one after the other decode one after the other
/// into a buffer each, of which the rest stays as it was; behind the second
/// stands what followed it.
pub proof fn law_blocks_follow_blocks(
    m: Model,
    h: History,
    dh: History,
    p: Seq<i32>,
    q: Seq<i32>,
    n: nat,
    pres_len: int,
    rest: Seq<bool>,
    before: Seq<i32>,
)
    requires
        m.is_valid(),
        h.is_valid(),
        dh.advanced(pres_len) == h,
        encoding::codable(p, n),
        encoding::codable(q, n),
        n <= pres_len <= MAX_PAIRS,
        2 * n <= before.len(),
    ensures
        ({
            let first = encoding::block_bits(m, h, p, n);
            let h2 = encoding::block_history(m, h, p, n, pres_len);
            let second = encoding::block_bits(m, h2, q, n);
            let s = first + (second + rest);
            let (lines, end) = decoding::decoded(m, dh.advanced(pres_len), s, n);
            let dh2 = decoding::decoded_history(m, dh.advanced(pres_len), s, n, pres_len);
            let s2 = decoding::after(s, end);
            let (lines2, end2) = decoding::decoded(m, dh2.advanced(pres_len), s2, n);
            &&& decoding::decodable(m, dh.advanced(pres_len), s, n)
            &&& decoding::filled(lines, n as int, before) == p.take(2 * n as int) + before.skip(
                2 * n as int,
            )
            &&& end == first.len()
            &&& s2 == second + rest
            &&& decoding::decodable(m, dh2.advanced(pres_len), s2, n)
            &&& decoding::filled(lines2, n as int, before) == q.take(2 * n as int) + before.skip(
                2 * n as int,
            )
            &&& end2 == second.len()
            &&& decoding::after(s2, end2) == rest
        }),
{
    let first = encoding::block_bits(m, h, p, n);
    let h2 = encoding::block_history(m, h, p, n, pres_len);
    let second = encoding::block_bits(m, h2, q, n);
    let s = first + (second + rest);
    let dh2 = decoding::decoded_history(m, h, s, n, pres_len);
    law_pairs_roundtrip(m, h, dh, p, n, pres_len, second + rest);
    law_pairs_roundtrip(m, h2, dh2, q, n, pres_len, rest);
    let lines = decoding::decoded(m, h, s, n).0;
    let lines2 = decoding::decoded(m, h2, second + rest, n).0;
    assert(decoding::filled(lines, n as int, before) =~= p.take(2 * n as int) + before.skip(
        2 * n as int,
    ));
    assert(decoding::filled(lines2, n as int, before) =~= q.take(2 * n as int) + before.skip(
        2 * n as int,
    ));
}

} // verus!
