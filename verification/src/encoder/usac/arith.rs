//! USAC spectral arithmetic encoding.
//!
//! The mirror of [`crate::decoder::usac::arith::decode_pairs`]; see
//! [`crate::tables::usac_arith`] for the context model and [`crate::range`] for
//! the coder that this shares with the decoder.
//!
//! Every pair is coded explicitly: the sentinel by which a block can end early
//! is understood by the decoder and never written here.

use crate::bits;
use crate::bitstream::BitWriter;
use crate::range;
use crate::range::Encoder;
use crate::tables::usac_arith;
use crate::tables::usac_arith::{ArithTables, Contexts, History, Model, ESCAPE, MAX_PAIRS};
use vstd::prelude::*;

verus! {

pub open spec fn magnitude(q: i32) -> int {
    if q < 0 {
        -q
    } else {
        q as int
    }
}

/// `x` halved `k` times.
pub open spec fn halved(x: int, k: nat) -> int
    decreases k,
{
    if k == 0 {
        x
    } else {
        halved(x, (k - 1) as nat) / 2
    }
}

/// How often both magnitudes must be halved to fit in two bits each.
pub open spec fn levels(a: int, b: int) -> nat
    decreases a + b,
{
    if a < 0 || b < 0 || (a <= 3 && b <= 3) {
        0
    } else {
        1 + levels(a / 2, b / 2)
    }
}

/// The number of escapes that the context takes note of.
pub open spec fn noted(escapes: nat) -> int {
    if escapes < 7 {
        escapes as int
    } else {
        7
    }
}

/// Codes `n` escapes.
pub open spec fn code_escapes(m: Model, e: Encoder, context: int, n: nat) -> Encoder
    decreases n,
{
    if n == 0 {
        e
    } else {
        code_escapes(m, e, context, (n - 1) as nat).code(
            m.symbol_table(context, noted((n - 1) as nat)),
            ESCAPE as int,
        )
    }
}

/// The two bits of plane `k`.
pub open spec fn plane(a: int, b: int, k: nat) -> int {
    halved(a, k) % 2 + 2 * (halved(b, k) % 2)
}

/// Codes the planes from `from` down to `to`.
pub open spec fn code_planes(m: Model, e: Encoder, a: int, b: int, from: nat, to: nat) -> Encoder
    decreases from - to,
{
    if to >= from {
        e
    } else {
        code_planes(m, e, a, b, from, to + 1).code(
            m.plane_table(halved(a, to + 1), halved(b, to + 1)),
            plane(a, b, to),
        )
    }
}

/// Codes a pair of magnitudes: an escape for each level, what is left of both
/// in two bits each, and the bits that were halved away, highest first.
pub open spec fn code_pair(m: Model, e: Encoder, context: int, a: int, b: int) -> Encoder {
    let n = levels(a, b);
    let e = code_escapes(m, e, context, n);
    let e = e.code(m.symbol_table(context, noted(n)), halved(a, n) + 4 * halved(b, n));
    code_planes(m, e, a, b, n, 0)
}

/// The encoder, the contexts and the carried state after `i` pairs.
#[verifier::ext_equal]
pub struct Progress {
    pub coder: Encoder,
    pub history: History,
    pub state: int,
}

pub open spec fn code_pairs(m: Model, h: History, q: Seq<i32>, i: nat) -> Progress
    decreases i,
{
    if i == 0 {
        Progress { coder: Encoder::start(Seq::empty()), history: h, state: h.first_state() }
    } else {
        let at = i - 1;
        let p = code_pairs(m, h, q, (i - 1) as nat);
        let a = magnitude(q[2 * at]);
        let b = magnitude(q[2 * at + 1]);
        Progress {
            coder: code_pair(m, p.coder, p.history.context(at, p.state), a, b),
            history: p.history.with_pair(at, usac_arith::pair_size(a, b)),
            state: p.history.carried(at, p.state),
        }
    }
}

/// The signs of the first `k` lines: one bit for each that is not zero, set
/// where it is positive.
pub open spec fn sign_bits(q: Seq<i32>, k: nat) -> Seq<bool>
    decreases k,
{
    if k == 0 {
        Seq::empty()
    } else if q[k - 1] != 0 {
        sign_bits(q, (k - 1) as nat) + bits::bit(q[k - 1] > 0)
    } else {
        sign_bits(q, (k - 1) as nat)
    }
}

/// The bits of a block of `n` pairs.
pub open spec fn block_bits(m: Model, h: History, q: Seq<i32>, n: nat) -> Seq<bool> {
    code_pairs(m, h, q, n).coder.finish() + sign_bits(q, 2 * n)
}

/// The contexts after a block of `n` pairs out of `pres_len`.
pub open spec fn block_history(m: Model, h: History, q: Seq<i32>, n: nat, pres_len: int) -> History {
    code_pairs(m, h, q, n).history.with_zeros(n as int, pres_len).advanced(pres_len)
}

/// Whether the first `n` pairs can be coded: the size of a pair is a number
/// that an `i32` holds.
pub open spec fn codable(q: Seq<i32>, n: nat) -> bool {
    &&& 2 * n <= q.len()
    &&& forall|i: int|
        0 <= i < n ==> magnitude(#[trigger] q[2 * i]) + magnitude(q[2 * i + 1]) < i32::MAX
}

/// The range encoder's interval, carried across symbols within one block.
struct RangeEncoder {
    low: u32,
    high: u32,
    /// Count of pending "opposite" bits that a mid-range doubling has
    /// deferred, resolved the next time a bit is actually emitted.
    pending: u32,
}

impl RangeEncoder {
    spec fn on(self, out: Seq<bool>) -> Encoder {
        Encoder {
            low: self.low as int,
            high: self.high as int,
            pending: self.pending as nat,
            out,
        }
    }

    fn new() -> (r: Self)
        ensures
            forall|out: Seq<bool>| #[trigger] r.on(out) == Encoder::start(out),
            r.pending == 0,
    {
        Self { low: 0, high: 65535, pending: 0 }
    }

    /// Emit `bit`, followed by `self.pending` copies of its complement: the
    /// bits of the doublings that were deferred.
    fn emit(&mut self, writer: &mut BitWriter, bit: bool)
        ensures
            final(writer)@ == range::emit(old(writer)@, old(self).pending as nat, bit),
            final(self).pending == 0,
            final(self).low == old(self).low,
            final(self).high == old(self).high,
    {
        writer.write_bit(bit);
        let mut i: u32 = 0;
        assert(writer@ =~= range::emit(old(writer)@, 0, bit));
        while i < self.pending
            invariant
                i <= self.pending,
                *self == *old(self),
                writer@ == range::emit(old(writer)@, i as nat, bit),
            decreases self.pending - i,
        {
            writer.write_bit(!bit);
            i += 1;
            assert(writer@ =~= range::emit(old(writer)@, i as nat, bit));
        }
        self.pending = 0;
    }

    /// Encode `symbol` against `cum_freq`, a descending cumulative-frequency
    /// table zero-terminated at `cum_freq[cum_freq.len() - 1]`.
    fn encode_symbol(&mut self, writer: &mut BitWriter, symbol: i32, cum_freq: &[u16])
        requires
            range::is_settled(old(self).low as int, old(self).high as int),
            range::is_table(cum_freq@),
            0 <= symbol < cum_freq@.len(),
            old(self).pending + 16 <= u32::MAX,
        ensures
            final(self).on(final(writer)@) == old(self).on(old(writer)@).code(
                cum_freq@,
                symbol as int,
            ),
            range::is_settled(final(self).low as int, final(self).high as int),
            final(self).pending <= old(self).pending + 16,
    {
        let ghost goal = self.on(writer@).code(cum_freq@, symbol as int);
        proof {
            range::lemma_part(self.low as int, self.high as int, cum_freq@, symbol as int);
        }
        let range: u64 = (self.high - self.low + 1) as u64;
        let low: u32 = self.low;
        proof {
            let w = range as int;
            let c = cum_freq@[symbol as int] as int;
            assert(0 <= w * c <= 65536 * 65535) by (nonlinear_arith)
                requires
                    0 <= w <= 65536,
                    0 <= c <= 65535,
            ;
            if symbol > 0 {
                let d = cum_freq@[symbol - 1] as int;
                assert(0 <= w * d <= 65536 * 65535) by (nonlinear_arith)
                    requires
                        0 <= w <= 65536,
                        0 <= d <= 65535,
                ;
            }
        }
        if symbol > 0 {
            self.high = low + (range * cum_freq[symbol as usize - 1] as u64 / 16384) as u32 - 1;
        }
        self.low = low + (range * cum_freq[symbol as usize] as u64 / 16384) as u32;
        assert(self.on(writer@) == old(self).on(old(writer)@).narrow(cum_freq@, symbol as int));
        let ghost mut width: int = 1;
        let ghost mut k: int = 0;
        proof {
            vstd::arithmetic::power2::lemma2_to64();
        }
        loop
            invariant
                range::is_interval(self.low as int, self.high as int),
                self.on(writer@).settle() == goal,
                self.high - self.low + 1 >= width,
                k >= 0,
                width == vstd::arithmetic::power2::pow2(k as nat),
                self.pending <= old(self).pending + k,
                old(self).pending + 16 <= u32::MAX,
            ensures
                range::is_settled(self.low as int, self.high as int),
                self.on(writer@) == goal,
                self.pending <= old(self).pending + 16,
            decreases 65536 - (self.high - self.low),
        {
            proof {
                lemma_width_bound(k as nat, self.high - self.low + 1);
            }
            let ghost before = self.on(writer@);
            if self.high < 32768 {
                self.emit(writer, false);
            } else if self.low >= 32768 {
                self.emit(writer, true);
                self.low = self.low - 32768;
                self.high = self.high - 32768;
            } else if self.low >= 16384 && self.high < 49152 {
                proof {
                    vstd::arithmetic::power2::lemma_pow2_unfold((k + 1) as nat);
                    lemma_width_bound((k + 1) as nat, 2 * (self.high - self.low + 1));
                }
                self.pending = self.pending + 1;
                self.low = self.low - 16384;
                self.high = self.high - 16384;
            } else {
                break;
            }
            self.low = self.low * 2;
            self.high = 2 * self.high + 1;
            proof {
                let off = range::offset(before.low, before.high)->0;
                assert(self.on(writer@) == before.step(off));
                vstd::arithmetic::power2::lemma_pow2_unfold((k + 1) as nat);
                width = 2 * width;
                k = k + 1;
            }
        }
    }

    /// Flush the final interval so the decoder can disambiguate it, ending the
    /// block's arithmetic-coded payload.
    fn finish(&mut self, writer: &mut BitWriter)
        requires
            old(self).pending < u32::MAX,
        ensures
            final(writer)@ == old(self).on(old(writer)@).finish(),
    {
        self.pending = self.pending + 1;
        let bit: bool = self.low >= 16384;
        self.emit(writer, bit);
    }
}

/// Halving keeps a magnitude in its range.
pub(crate) proof fn lemma_halved(x: int, k: nat)
    requires
        x >= 0,
    ensures
        0 <= halved(x, k) <= x,
    decreases k,
{
    if k > 0 {
        lemma_halved(x, (k - 1) as nat);
    }
}

proof fn lemma_halved_first(x: int, k: nat)
    ensures
        halved(x / 2, k) == halved(x, k + 1),
    decreases k,
{
    reveal_with_fuel(halved, 2);
    if k > 0 {
        lemma_halved_first(x, (k - 1) as nat);
    }
}

/// After its levels, what is left of a pair fits in two bits each.
pub(crate) proof fn lemma_levels_end(a: int, b: int)
    requires
        a >= 0,
        b >= 0,
    ensures
        0 <= halved(a, levels(a, b)) <= 3,
        0 <= halved(b, levels(a, b)) <= 3,
        levels(a, b) > 0 ==> halved(a, levels(a, b)) + halved(b, levels(a, b)) > 0,
    decreases a + b,
{
    if a > 3 || b > 3 {
        lemma_levels_end(a / 2, b / 2);
        lemma_halved_first(a, levels(a / 2, b / 2));
        lemma_halved_first(b, levels(a / 2, b / 2));
        if levels(a / 2, b / 2) == 0 {
            assert(halved(a, 1) == halved(a, 0) / 2);
            assert(halved(b, 1) == halved(b, 0) / 2);
        }
    }
}

proof fn lemma_levels_bound(a: int, b: int, k: nat)
    requires
        0 <= a < 4 * vstd::arithmetic::power2::pow2(k),
        0 <= b < 4 * vstd::arithmetic::power2::pow2(k),
    ensures
        levels(a, b) <= k,
    decreases k,
{
    vstd::arithmetic::power2::lemma2_to64();
    if k > 0 && (a > 3 || b > 3) {
        vstd::arithmetic::power2::lemma_pow2_unfold(k);
        lemma_levels_bound(a / 2, b / 2, (k - 1) as nat);
    }
}

/// A magnitude of an `i32` has at most twenty-nine levels.
pub(crate) proof fn lemma_levels_of_i32(a: int, b: int)
    requires
        0 <= a <= i32::MAX,
        0 <= b <= i32::MAX,
    ensures
        levels(a, b) <= 29,
{
    vstd::arithmetic::power2::lemma2_to64();
    lemma_levels_bound(a, b, 29);
}

proof fn lemma_escapes_behind(m: Model, prefix: Seq<bool>, e: Encoder, context: int, n: nat)
    ensures
        code_escapes(m, e.behind(prefix), context, n) == code_escapes(m, e, context, n).behind(
            prefix,
        ),
    decreases n,
{
    if n > 0 {
        let k = (n - 1) as nat;
        lemma_escapes_behind(m, prefix, e, context, k);
        range::lemma_code_behind(
            prefix,
            code_escapes(m, e, context, k),
            m.symbol_table(context, noted(k)),
            ESCAPE as int,
        );
    }
}

proof fn lemma_planes_behind(
    m: Model,
    prefix: Seq<bool>,
    e: Encoder,
    a: int,
    b: int,
    from: nat,
    to: nat,
)
    ensures
        code_planes(m, e.behind(prefix), a, b, from, to) == code_planes(
            m,
            e,
            a,
            b,
            from,
            to,
        ).behind(prefix),
    decreases from - to,
{
    if to < from {
        lemma_planes_behind(m, prefix, e, a, b, from, to + 1);
        range::lemma_code_behind(
            prefix,
            code_planes(m, e, a, b, from, to + 1),
            m.plane_table(halved(a, to + 1), halved(b, to + 1)),
            plane(a, b, to),
        );
    }
}

proof fn lemma_pair_behind(m: Model, prefix: Seq<bool>, e: Encoder, context: int, a: int, b: int)
    ensures
        code_pair(m, e.behind(prefix), context, a, b) == code_pair(m, e, context, a, b).behind(
            prefix,
        ),
{
    let n = levels(a, b);
    lemma_escapes_behind(m, prefix, e, context, n);
    let e1 = code_escapes(m, e, context, n);
    let t = m.symbol_table(context, noted(n));
    let symbol = halved(a, n) + 4 * halved(b, n);
    range::lemma_code_behind(prefix, e1, t, symbol);
    lemma_planes_behind(m, prefix, e1.code(t, symbol), a, b, n, 0);
}

/// Codes one pair of magnitudes.
fn encode_pair(
    coder: &mut RangeEncoder,
    writer: &mut BitWriter,
    tables: &ArithTables,
    context: u32,
    first: i32,
    second: i32,
)
    requires
        range::is_settled(old(coder).low as int, old(coder).high as int),
        context < 0x20000,
        0 <= first,
        0 <= second,
        old(coder).pending + 1024 <= u32::MAX,
    ensures
        final(coder).on(final(writer)@) == code_pair(
            tables@,
            old(coder).on(old(writer)@),
            context as int,
            first as int,
            second as int,
        ),
        range::is_settled(final(coder).low as int, final(coder).high as int),
        final(coder).pending <= old(coder).pending + 1024,
{
    let ghost m = tables@;
    let ghost e0 = coder.on(writer@);
    let ghost n = levels(first as int, second as int);
    let mut a: i32 = first;
    let mut b: i32 = second;
    let mut planes: [i32; 32] = [0i32;32];
    let mut lev: usize = 0;
    let mut esc_nb: u32 = 0;
    proof {
        lemma_levels_of_i32(first as int, second as int);
        lemma_levels_end(first as int, second as int);
    }
    while a > 3 || b > 3
        invariant
            m == tables@,
            n == levels(first as int, second as int),
            n <= 29,
            n == lev + levels(a as int, b as int),
            a >= 0,
            b >= 0,
            context < 0x20000,
            a == halved(first as int, lev as nat),
            b == halved(second as int, lev as nat),
            esc_nb == noted(lev as nat),
            planes@.len() == 32,
            forall|j: int|
                0 <= j < lev ==> #[trigger] planes@[j] == plane(
                    first as int,
                    second as int,
                    j as nat,
                ),
            coder.on(writer@) == code_escapes(m, e0, context as int, lev as nat),
            range::is_settled(coder.low as int, coder.high as int),
            coder.pending <= old(coder).pending + 16 * lev,
            old(coder).pending + 1024 <= u32::MAX,
        decreases a + b,
    {
        coder.encode_symbol(writer, ESCAPE, tables.symbol_table(context, esc_nb));
        planes[lev] = a % 2 + 2 * (b % 2);
        lev += 1;
        a = a / 2;
        b = b / 2;
        if esc_nb < 7 {
            esc_nb = esc_nb + 1;
        }
    }
    assert(lev == n);
    let symbol: i32 = a + 4 * b;
    coder.encode_symbol(writer, symbol, tables.symbol_table(context, esc_nb));
    let ghost e1 = coder.on(writer@);

    let mut at: usize = lev;
    while at > 0
        invariant
            at <= lev == n,
            n <= 29,
            m == tables@,
            0 <= first,
            0 <= second,
            a == halved(first as int, at as nat),
            b == halved(second as int, at as nat),
            planes@.len() == 32,
            forall|j: int|
                0 <= j < lev ==> #[trigger] planes@[j] == plane(
                    first as int,
                    second as int,
                    j as nat,
                ),
            coder.on(writer@) == code_planes(m, e1, first as int, second as int, n, at as nat),
            range::is_settled(coder.low as int, coder.high as int),
            coder.pending <= old(coder).pending + 16 * (n + 1) + 16 * (n - at),
            old(coder).pending + 1024 <= u32::MAX,
        decreases at,
    {
        at = at - 1;
        let bits: i32 = planes[at];
        proof {
            lemma_halved(first as int, at as nat);
            lemma_halved(second as int, at as nat);
            assert(bits == plane(first as int, second as int, at as nat));
            assert(halved(first as int, (at + 1) as nat) == halved(first as int, at as nat) / 2);
            assert(halved(second as int, (at + 1) as nat) == halved(second as int, at as nat) / 2);
        }
        coder.encode_symbol(writer, bits, tables.plane_table(a, b));
        a = 2 * a + bits % 2;
        b = 2 * b + bits / 2;
    }
}

/// Encode `n` coefficient pairs (`2n` spectral lines) from `quant[0..2n]`,
/// advancing `contexts` for the next block.
///
/// `pres_len` is the block's full coefficient-pair budget (see
/// [`crate::decoder::usac::arith::decode_pairs`] for why it can exceed `n`);
/// positions from `n` to `pres_len` are reset to the context's "coded zero"
/// state to match what the decoder does for the same range.
pub fn encode_pairs(
    writer: &mut BitWriter,
    contexts: &mut Contexts,
    tables: &ArithTables,
    quant: &[i32],
    n: usize,
    pres_len: usize,
)
    requires
        n <= pres_len <= MAX_PAIRS,
        codable(quant@, n as nat),
    ensures
        final(writer)@ == old(writer)@ + block_bits(
            tables@,
            old(contexts)@,
            quant@,
            n as nat,
        ),
        final(contexts)@ == block_history(
            tables@,
            old(contexts)@,
            quant@,
            n as nat,
            pres_len as int,
        ),
{
    let ghost m = tables@;
    let ghost h = contexts@;
    let ghost q = quant@;
    let ghost prefix = writer@;
    let mut coder: RangeEncoder = RangeEncoder::new();
    let mut state: u32 = (contexts.prev(0) as u32) * 4096;
    proof {
        usac_arith::lemma_context_range(h, 0, 0);
        assert(prefix + Seq::<bool>::empty() =~= prefix);
        assert(coder.on(prefix) == Encoder::start(Seq::empty()).behind(prefix));
    }
    let mut i: usize = 0;
    while i < n
        invariant
            i <= n <= pres_len <= MAX_PAIRS,
            m == tables@,
            q == quant@,
            codable(q, n as nat),
            contexts@ == code_pairs(m, h, q, i as nat).history,
            state == code_pairs(m, h, q, i as nat).state,
            state < 65536,
            coder.on(writer@) == code_pairs(m, h, q, i as nat).coder.behind(prefix),
            range::is_settled(coder.low as int, coder.high as int),
            coder.pending <= 1024 * i,
        decreases n - i,
    {
        assert(magnitude(q[2 * i]) + magnitude(q[2 * i + 1]) < i32::MAX);
        let context: u32 = contexts.get_context(i, &mut state);
        let first: i32 = if quant[2 * i] < 0 {
            -quant[2 * i]
        } else {
            quant[2 * i]
        };
        let second: i32 = if quant[2 * i + 1] < 0 {
            -quant[2 * i + 1]
        } else {
            quant[2 * i + 1]
        };
        let size: i32 = if first + second + 1 < 15 {
            first + second + 1
        } else {
            15
        };
        contexts.set_pres(i as isize, size);
        proof {
            let p = code_pairs(m, h, q, i as nat);
            lemma_pair_behind(m, prefix, p.coder, context as int, first as int, second as int);
        }
        encode_pair(&mut coder, writer, tables, context, first, second);
        i += 1;
    }
    proof {
        range::lemma_finish_behind(prefix, code_pairs(m, h, q, n as nat).coder);
    }
    coder.finish(writer);
    contexts.set_zeros(n, pres_len);

    // Sign is not arithmetic-coded: one raw bit per nonzero coefficient,
    // 1 = positive, immediately following the coded block.
    let ghost coded = writer@;
    let mut k: usize = 0;
    assert(writer@ =~= coded + sign_bits(q, 0));
    while k < 2 * n
        invariant
            k <= 2 * n <= q.len(),
            n <= MAX_PAIRS,
            q == quant@,
            writer@ == coded + sign_bits(q, k as nat),
        decreases 2 * n - k,
    {
        if quant[k] != 0 {
            writer.write_bit(quant[k] > 0);
        }
        k += 1;
        assert(writer@ =~= coded + sign_bits(q, k as nat));
    }
    contexts.advance(pres_len);
    assert(writer@ =~= prefix + block_bits(m, h, q, n as nat));
}

/// An interval is doubled at most sixteen times.
pub(crate) proof fn lemma_width_bound(k: nat, width: int)
    requires
        vstd::arithmetic::power2::pow2(k) <= width <= 65536,
    ensures
        k <= 16,
{
    vstd::arithmetic::power2::lemma2_to64();
    if k > 16 {
        vstd::arithmetic::power2::lemma_pow2_strictly_increases(16, k);
    }
}

/// Whether two spectra have the same magnitudes in their first `k` lines.
pub open spec fn same_magnitudes(p: Seq<i32>, q: Seq<i32>, k: nat) -> bool {
    forall|i: int| 0 <= i < k ==> magnitude(#[trigger] p[i]) == magnitude(q[i])
}

proof fn lemma_same_pairs(m: Model, h: History, p: Seq<i32>, q: Seq<i32>, i: nat)
    requires
        same_magnitudes(p, q, 2 * i),
    ensures
        code_pairs(m, h, p, i) == code_pairs(m, h, q, i),
    decreases i,
{
    if i > 0 {
        lemma_same_pairs(m, h, p, q, (i - 1) as nat);
        assert(magnitude(p[2 * (i - 1)]) == magnitude(q[2 * (i - 1)]));
        assert(magnitude(p[2 * (i - 1) + 1]) == magnitude(q[2 * (i - 1) + 1]));
    }
}

proof fn lemma_same_signs(p: Seq<i32>, q: Seq<i32>, k: nat)
    requires
        same_magnitudes(p, q, k),
    ensures
        sign_bits(p, k).len() == sign_bits(q, k).len(),
    decreases k,
{
    if k > 0 {
        lemma_same_signs(p, q, (k - 1) as nat);
        assert(magnitude(p[k - 1]) == magnitude(q[k - 1]));
    }
}

/// Spectra of equal magnitudes take equally many bits, of which only the
/// trailing sign bits can differ, and leave the same contexts.
pub proof fn law_signs_are_sent_apart(
    m: Model,
    h: History,
    p: Seq<i32>,
    q: Seq<i32>,
    n: nat,
    pres_len: int,
)
    requires
        same_magnitudes(p, q, 2 * n),
    ensures
        ({
            let a = block_bits(m, h, p, n);
            let b = block_bits(m, h, q, n);
            let coded = a.len() - sign_bits(p, 2 * n).len();
            &&& a.len() == b.len()
            &&& sign_bits(p, 2 * n).len() == sign_bits(q, 2 * n).len()
            &&& a.take(coded) == b.take(coded)
            &&& a.skip(coded) == sign_bits(p, 2 * n)
            &&& b.skip(coded) == sign_bits(q, 2 * n)
        }),
        block_history(m, h, p, n, pres_len) == block_history(m, h, q, n, pres_len),
{
    lemma_same_pairs(m, h, p, q, n);
    lemma_same_signs(p, q, 2 * n);
    let payload = code_pairs(m, h, p, n).coder.finish();
    let a = block_bits(m, h, p, n);
    let b = block_bits(m, h, q, n);
    assert(a.take(payload.len() as int) =~= payload);
    assert(b.take(payload.len() as int) =~= payload);
    assert(a.skip(payload.len() as int) =~= sign_bits(p, 2 * n));
    assert(b.skip(payload.len() as int) =~= sign_bits(q, 2 * n));
}

} // verus!
