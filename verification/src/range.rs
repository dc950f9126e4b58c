//! The mathematics of the sixteen-bit range coder.
//!
//! Coding a symbol narrows the interval `[low, high]` to the part that the
//! symbol's cumulative frequencies give it; whenever the interval lies in one
//! half, or in the middle half, of the sixteen-bit range it is doubled. The
//! encoder turns each doubling into a bit (or defers it), the decoder reads a
//! bit for each doubling.
//!
//! The proof that decoding undoes encoding compares the two on one scale.
//! After `t` doublings the encoder's interval, put behind the bits it has
//! emitted, is an interval of numbers of `t + 16` bits: [`Encoder::base`] is
//! where it starts. The decoder's value is the first `t + 16` bits of the
//! stream less that base. Each later interval lies inside each earlier one, so
//! a stream that ends inside the last of them takes every decision of the
//! decoder the way the encoder took it.

use crate::bits;
use vstd::arithmetic::power2::*;
use vstd::prelude::*;

verus! {

/// A cumulative-frequency table: strictly descending from below the full scale
/// of 16384 to zero.
pub open spec fn is_table(cf: Seq<u16>) -> bool {
    &&& cf.len() >= 2
    &&& cf[0] < 16384
    &&& cf[cf.len() - 1] == 0
    &&& forall|i: int, j: int| 0 <= i < j < cf.len() ==> cf[i] > cf[j]
}

/// Where the cumulative frequency `c` falls in the interval.
pub open spec fn bound(low: int, high: int, c: int) -> int {
    low + ((high - low + 1) * c) / 16384
}

/// The start of the part of the interval that belongs to `symbol`.
pub open spec fn part_low(low: int, high: int, cf: Seq<u16>, symbol: int) -> int {
    bound(low, high, cf[symbol] as int)
}

/// The end of the part of the interval that belongs to `symbol`.
pub open spec fn part_high(low: int, high: int, cf: Seq<u16>, symbol: int) -> int {
    if symbol > 0 {
        bound(low, high, cf[symbol - 1] as int) - 1
    } else {
        high
    }
}

pub open spec fn is_interval(low: int, high: int) -> bool {
    0 <= low <= high <= 65535
}

/// What is taken off an interval before it is doubled, where it is doubled at
/// all.
pub open spec fn offset(low: int, high: int) -> Option<int> {
    if high < 32768 {
        Some(0)
    } else if low >= 32768 {
        Some(32768)
    } else if low >= 16384 && high < 49152 {
        Some(16384)
    } else {
        None
    }
}

/// An interval that need not be doubled.
pub open spec fn is_settled(low: int, high: int) -> bool {
    is_interval(low, high) && offset(low, high) is None
}

/// `out`, then `bit`, then the `pending` complements of it.
pub open spec fn emit(out: Seq<bool>, pending: nat, bit: bool) -> Seq<bool> {
    (out + bits::bit(bit)) + Seq::new(pending, |i: int| !bit)
}

/// The state of an encoder.
#[verifier::ext_equal]
pub struct Encoder {
    pub low: int,
    pub high: int,
    pub pending: nat,
    pub out: Seq<bool>,
}

impl Encoder {
    /// The state in which a block starts, behind the bits `out`.
    pub open spec fn start(out: Seq<bool>) -> Encoder {
        Encoder { low: 0, high: 65535, pending: 0, out }
    }

    /// One doubling.
    pub open spec fn step(self, off: int) -> Encoder {
        Encoder {
            low: 2 * (self.low - off),
            high: 2 * (self.high - off) + 1,
            pending: if off == 16384 {
                self.pending + 1
            } else {
                0
            },
            out: if off == 16384 {
                self.out
            } else {
                emit(self.out, self.pending, off == 32768)
            },
        }
    }

    /// All doublings that are due.
    pub open spec fn settle(self) -> Encoder
        decreases 65536 - (self.high - self.low),
    {
        if !is_interval(self.low, self.high) {
            self
        } else {
            match offset(self.low, self.high) {
                None => self,
                Some(off) => self.step(off).settle(),
            }
        }
    }

    pub open spec fn narrow(self, cf: Seq<u16>, symbol: int) -> Encoder {
        Encoder {
            low: part_low(self.low, self.high, cf, symbol),
            high: part_high(self.low, self.high, cf, symbol),
            pending: self.pending,
            out: self.out,
        }
    }

    /// Codes one symbol.
    pub open spec fn code(self, cf: Seq<u16>, symbol: int) -> Encoder {
        self.narrow(cf, symbol).settle()
    }

    /// The bits after the final flush.
    pub open spec fn finish(self) -> Seq<bool> {
        emit(self.out, self.pending + 1, self.low >= 16384)
    }

    /// The same state behind the bits `prefix`.
    pub open spec fn behind(self, prefix: Seq<bool>) -> Encoder {
        Encoder { low: self.low, high: self.high, pending: self.pending, out: prefix + self.out }
    }
}

proof fn lemma_emit_behind(prefix: Seq<bool>, out: Seq<bool>, pending: nat, bit: bool)
    ensures
        emit(prefix + out, pending, bit) == prefix + emit(out, pending, bit),
{
    assert(emit(prefix + out, pending, bit) =~= prefix + emit(out, pending, bit));
}

proof fn lemma_settle_behind(prefix: Seq<bool>, e: Encoder)
    ensures
        e.behind(prefix).settle() == e.settle().behind(prefix),
    decreases 65536 - (e.high - e.low),
{
    if is_interval(e.low, e.high) {
        match offset(e.low, e.high) {
            None => {},
            Some(off) => {
                lemma_emit_behind(prefix, e.out, e.pending, off == 32768);
                assert(e.behind(prefix).step(off) == e.step(off).behind(prefix));
                lemma_settle_behind(prefix, e.step(off));
            },
        }
    }
}

/// What a block is coded to does not depend on what was written before it.
pub(crate) proof fn lemma_code_behind(prefix: Seq<bool>, e: Encoder, cf: Seq<u16>, symbol: int)
    ensures
        e.behind(prefix).code(cf, symbol) == e.code(cf, symbol).behind(prefix),
{
    assert(e.behind(prefix).narrow(cf, symbol) == e.narrow(cf, symbol).behind(prefix));
    lemma_settle_behind(prefix, e.narrow(cf, symbol));
}

pub(crate) proof fn lemma_finish_behind(prefix: Seq<bool>, e: Encoder)
    ensures
        e.behind(prefix).finish() == prefix + e.finish(),
{
    lemma_emit_behind(prefix, e.out, e.pending + 1, e.low >= 16384);
}

/// Bit `k` of a stream that continues with zeros for ever.
pub open spec fn stream_bit(s: Seq<bool>, k: int) -> int {
    if 0 <= k < s.len() && s[k] {
        1
    } else {
        0
    }
}

/// The first `k` bits of such a stream as a number.
pub open spec fn window(s: Seq<bool>, k: nat) -> int
    decreases k,
{
    if k == 0 {
        0
    } else {
        2 * window(s, (k - 1) as nat) + stream_bit(s, k - 1)
    }
}

/// The state of a decoder.
#[verifier::ext_equal]
pub struct Decoder {
    pub low: int,
    pub high: int,
    pub value: int,
    /// The number of bits taken from the stream.
    pub used: nat,
}

/// The first index at or after `i` whose entry is at most `x`.
pub open spec fn find(cf: Seq<u16>, x: int, i: int) -> int
    decreases cf.len() - i,
{
    if i >= cf.len() - 1 || cf[i] <= x {
        i
    } else {
        find(cf, x, i + 1)
    }
}

impl Decoder {
    /// The state in which the block at the start of the stream `s` starts.
    pub open spec fn start(s: Seq<bool>) -> Decoder {
        Decoder { low: 0, high: 65535, value: window(s, 16), used: 16 }
    }

    pub open spec fn is_valid(self) -> bool {
        is_settled(self.low, self.high) && self.low <= self.value <= self.high
    }

    /// One doubling.
    pub open spec fn step(self, off: int, s: Seq<bool>) -> Decoder {
        Decoder {
            low: 2 * (self.low - off),
            high: 2 * (self.high - off) + 1,
            value: 2 * (self.value - off) + stream_bit(s, self.used as int),
            used: self.used + 1,
        }
    }

    /// All doublings that are due.
    pub open spec fn settle(self, s: Seq<bool>) -> Decoder
        decreases 65536 - (self.high - self.low),
    {
        if !is_interval(self.low, self.high) {
            self
        } else {
            match offset(self.low, self.high) {
                None => self,
                Some(off) => self.step(off, s).settle(s),
            }
        }
    }

    pub open spec fn narrow(self, cf: Seq<u16>, symbol: int) -> Decoder {
        Decoder {
            low: part_low(self.low, self.high, cf, symbol),
            high: part_high(self.low, self.high, cf, symbol),
            value: self.value,
            used: self.used,
        }
    }

    /// The cumulative frequency at which the value stands.
    pub open spec fn cumulative(self) -> int {
        ((self.value - self.low + 1) * 16384 - 1) / (self.high - self.low + 1)
    }

    /// The next symbol.
    pub open spec fn symbol(self, cf: Seq<u16>) -> int {
        find(cf, self.cumulative(), 0)
    }

    /// The state after the next symbol.
    pub open spec fn next(self, cf: Seq<u16>, s: Seq<bool>) -> Decoder {
        self.narrow(cf, self.symbol(cf)).settle(s)
    }
}

/// The symbol found is the one whose frequencies enclose `x`.
pub(crate) proof fn lemma_find(cf: Seq<u16>, x: int, i: int)
    requires
        is_table(cf),
        x >= 0,
        0 <= i < cf.len(),
    ensures
        i <= find(cf, x, i) < cf.len(),
        cf[find(cf, x, i)] <= x,
        forall|j: int| i <= j < find(cf, x, i) ==> cf[j] > x,
    decreases cf.len() - i,
{
    if i >= cf.len() - 1 || cf[i] <= x {
    } else {
        lemma_find(cf, x, i + 1);
    }
}

pub(crate) proof fn lemma_find_unique(cf: Seq<u16>, x: int, symbol: int)
    requires
        is_table(cf),
        x >= 0,
        0 <= symbol < cf.len(),
        cf[symbol] <= x,
        symbol > 0 ==> cf[symbol - 1] > x,
    ensures
        find(cf, x, 0) == symbol,
{
    lemma_find(cf, x, 0);
    let f = find(cf, x, 0);
    if f < symbol {
        assert(cf[f] >= cf[symbol - 1]);
    }
}

/// Every symbol of a settled interval has a part of its own, inside the
/// interval.
pub(crate) proof fn lemma_part(low: int, high: int, cf: Seq<u16>, symbol: int)
    requires
        is_settled(low, high),
        is_table(cf),
        0 <= symbol < cf.len(),
    ensures
        low <= part_low(low, high, cf, symbol) <= part_high(low, high, cf, symbol) <= high,
{
    let w = high - low + 1;
    assert(w >= 16386);
    let c = cf[symbol] as int;
    assert(0 <= w * c) by (nonlinear_arith)
        requires
            w >= 0,
            c >= 0,
    ;
    if symbol > 0 {
        let d = cf[symbol - 1] as int;
        assert(d > c && cf[0] >= d);
        assert(w * d >= w * c + w) by (nonlinear_arith)
            requires
                w >= 0,
                d >= c + 1,
        ;
        assert(w * d <= w * 16384) by (nonlinear_arith)
            requires
                w >= 0,
                d <= 16384,
        ;
    } else {
        assert(w * c <= w * 16383) by (nonlinear_arith)
            requires
                w >= 0,
                c <= 16383,
        ;
        assert(w * 16383 == w * 16384 - w) by (nonlinear_arith);
    }
}

/// The parts of the symbols tile the interval, the last symbol's at the bottom
/// and the first one's at the top, and each starts where its cumulative
/// frequency, out of 16384, falls.
pub proof fn law_parts_tile_the_interval(low: int, high: int, cf: Seq<u16>, symbol: int)
    requires
        is_settled(low, high),
        is_table(cf),
        0 <= symbol < cf.len(),
    ensures
        part_low(low, high, cf, cf.len() - 1) == low,
        part_high(low, high, cf, 0) == high,
        symbol > 0 ==> part_high(low, high, cf, symbol) + 1 == part_low(low, high, cf, symbol - 1),
        ({
            let start = part_low(low, high, cf, symbol) - low;
            16384 * start <= (high - low + 1) * cf[symbol] < 16384 * (start + 1)
        }),
{
    vstd::arithmetic::mul::lemma_mul_basics(high - low + 1);
}

/// The value stands in the part of `symbol` exactly where its cumulative
/// frequency selects `symbol`.
proof fn lemma_cumulative(y: int, w: int, c: int)
    requires
        w > 0,
        y >= 0,
        c >= 0,
    ensures
        y >= (w * c) / 16384 <==> ((y + 1) * 16384 - 1) / w >= c,
{
    let x = (y + 1) * 16384 - 1;
    let wc = w * c;
    assert(y >= wc / 16384 <==> x >= wc);
    let q = x / w;
    vstd::arithmetic::div_mod::lemma_fundamental_div_mod(x, w);
    assert(0 <= x % w < w);
    assert(x == w * q + x % w);
    if q >= c {
        assert(w * q >= w * c) by (nonlinear_arith)
            requires
                w > 0,
                q >= c,
        ;
    } else {
        assert(w * c >= w * q + w) by (nonlinear_arith)
            requires
                w > 0,
                c >= q + 1,
        ;
    }
}

/// The part that the decoder narrows to holds its value.
pub(crate) proof fn lemma_decoded_part(d: Decoder, cf: Seq<u16>)
    requires
        d.is_valid(),
        is_table(cf),
    ensures
        d.cumulative() >= 0,
        d.cumulative() < 16384,
        0 <= d.symbol(cf) < cf.len(),
        d.low <= d.narrow(cf, d.symbol(cf)).low <= d.value <= d.narrow(cf, d.symbol(cf)).high
            <= d.high,
{
    let w = d.high - d.low + 1;
    let y = d.value - d.low;
    let x = d.cumulative();
    assert(x >= 0) by (nonlinear_arith)
        requires
            x == ((y + 1) * 16384 - 1) / w,
            w > 0,
            y >= 0,
    ;
    assert(x < 16384) by {
        let num = (y + 1) * 16384 - 1;
        vstd::arithmetic::div_mod::lemma_fundamental_div_mod(num, w);
        assert(num < w * 16384);
        assert(x < 16384) by (nonlinear_arith)
            requires
                num == w * x + num % w,
                num % w >= 0,
                num < w * 16384,
                w > 0,
        ;
    }
    lemma_find(cf, x, 0);
    let symbol = d.symbol(cf);
    lemma_part(d.low, d.high, cf, symbol);
    lemma_cumulative(y, w, cf[symbol] as int);
    if symbol > 0 {
        lemma_cumulative(y, w, cf[symbol - 1] as int);
    }
}

/// A value in the part of `symbol` decodes to `symbol`.
pub(crate) proof fn lemma_decodes(d: Decoder, cf: Seq<u16>, symbol: int)
    requires
        d.is_valid(),
        is_table(cf),
        0 <= symbol < cf.len(),
        part_low(d.low, d.high, cf, symbol) <= d.value <= part_high(d.low, d.high, cf, symbol),
    ensures
        d.symbol(cf) == symbol,
{
    lemma_decoded_part(d, cf);
    let w = d.high - d.low + 1;
    let y = d.value - d.low;
    lemma_cumulative(y, w, cf[symbol] as int);
    if symbol > 0 {
        lemma_cumulative(y, w, cf[symbol - 1] as int);
    }
    lemma_find_unique(cf, d.cumulative(), symbol);
}

/// Doubling ends in a settled interval that holds the value.
pub(crate) proof fn lemma_decoder_settles(d: Decoder, s: Seq<bool>)
    requires
        is_interval(d.low, d.high),
        d.low <= d.value <= d.high,
    ensures
        d.settle(s).is_valid(),
        d.settle(s).used >= d.used,
    decreases 65536 - (d.high - d.low),
{
    match offset(d.low, d.high) {
        None => {},
        Some(off) => {
            lemma_decoder_settles(d.step(off, s), s);
        },
    }
}

pub(crate) proof fn lemma_encoder_settles(e: Encoder)
    requires
        is_interval(e.low, e.high),
    ensures
        is_settled(e.settle().low, e.settle().high),
    decreases 65536 - (e.high - e.low),
{
    match offset(e.low, e.high) {
        None => {},
        Some(off) => {
            lemma_encoder_settles(e.step(off));
        },
    }
}

/// Coding a symbol leaves a settled interval.
pub(crate) proof fn lemma_coded_is_settled(e: Encoder, cf: Seq<u16>, symbol: int)
    requires
        is_settled(e.low, e.high),
        is_table(cf),
        0 <= symbol < cf.len(),
    ensures
        is_settled(e.code(cf, symbol).low, e.code(cf, symbol).high),
{
    lemma_part(e.low, e.high, cf, symbol);
    lemma_encoder_settles(e.narrow(cf, symbol));
}

/// Decoding a symbol leaves a valid state.
pub(crate) proof fn lemma_next_is_valid(d: Decoder, cf: Seq<u16>, s: Seq<bool>)
    requires
        d.is_valid(),
        is_table(cf),
    ensures
        d.next(cf, s).is_valid(),
        d.next(cf, s).used >= d.used,
        0 <= d.symbol(cf) < cf.len(),
{
    lemma_decoded_part(d, cf);
    lemma_decoder_settles(d.narrow(cf, d.symbol(cf)), s);
}

impl Encoder {
    /// Where the interval starts once it is put behind the bits emitted: the
    /// emitted bits, a zero and a run of ones for the deferred bits, as a
    /// number with fifteen bits more.
    pub open spec fn base(self) -> int {
        bits::value(self.out) * (65536 * pow2(self.pending)) + (pow2(self.pending) - 1) * 32768
    }

    /// Whether the stream `s` ends inside the interval.
    pub open spec fn covers(self, s: Seq<bool>) -> bool {
        self.base() + self.low <= window(s, self.out.len() + self.pending + 16) <= self.base()
            + self.high
    }
}

proof fn lemma_run_value(n: nat, b: bool)
    ensures
        bits::value(Seq::new(n, |i: int| b)) == if b {
            pow2(n) - 1
        } else {
            0
        },
    decreases n,
{
    lemma2_to64();
    let s = Seq::new(n, |i: int| b);
    if n == 0 {
        bits::lemma_empty();
        assert(s =~= Seq::empty());
    } else {
        let t = Seq::new((n - 1) as nat, |i: int| b);
        lemma_run_value((n - 1) as nat, b);
        assert(s =~= t.push(b));
        bits::lemma_value_push(t, b);
        lemma_pow2_unfold(n);
    }
}

proof fn lemma_emit_value(out: Seq<bool>, pending: nat, bit: bool)
    ensures
        emit(out, pending, bit).len() == out.len() + 1 + pending,
        bits::value(emit(out, pending, bit)) == if bit {
            (2 * bits::value(out) + 1) * pow2(pending) as int
        } else {
            2 * bits::value(out) * pow2(pending) + pow2(pending) - 1
        },
{
    let run = Seq::new(pending, |i: int| !bit);
    lemma_run_value(pending, !bit);
    assert(out + bits::bit(bit) =~= out.push(bit));
    bits::lemma_value_push(out, bit);
    bits::lemma_value_concat(out.push(bit), run);
}

/// A doubling of the interval is a doubling of the base, less what was taken
/// off.
proof fn lemma_base_step(e: Encoder, off: int)
    requires
        off == 0 || off == 16384 || off == 32768,
    ensures
        e.step(off).base() == 2 * (e.base() + off),
        e.step(off).out.len() + e.step(off).pending == e.out.len() + e.pending + 1,
{
    let v = bits::value(e.out) as int;
    let p = pow2(e.pending) as int;
    lemma2_to64();
    if off == 16384 {
        lemma_pow2_unfold(e.pending + 1);
        assert(v * (65536 * (2 * p)) == 2 * (v * (65536 * p))) by (nonlinear_arith);
    } else {
        lemma_emit_value(e.out, e.pending, off == 32768);
        let w = bits::value(e.step(off).out) as int;
        let vp = v * p;
        assert(v * (65536 * p) == 65536 * vp) by (nonlinear_arith)
            requires
                vp == v * p,
        ;
        assert(2 * v * p == 2 * vp) by (nonlinear_arith)
            requires
                vp == v * p,
        ;
        assert((2 * v + 1) * p == 2 * vp + p) by (nonlinear_arith)
            requires
                vp == v * p,
        ;
        assert(e.step(off).base() == w * 65536);
    }
}

/// A stream that ends inside the doubled interval ends inside the interval.
proof fn lemma_covers_step(e: Encoder, off: int, s: Seq<bool>)
    requires
        offset(e.low, e.high) == Some(off),
        e.step(off).covers(s),
    ensures
        e.covers(s),
{
    lemma_base_step(e, off);
    assert(window(s, (e.out.len() + e.pending + 17) as nat) == 2 * window(
        s,
        (e.out.len() + e.pending + 16) as nat,
    ) + stream_bit(s, (e.out.len() + e.pending + 16) as int));
}

pub(crate) proof fn lemma_covers_settle(e: Encoder, s: Seq<bool>)
    requires
        is_interval(e.low, e.high),
        e.settle().covers(s),
    ensures
        e.covers(s),
    decreases 65536 - (e.high - e.low),
{
    match offset(e.low, e.high) {
        None => {},
        Some(off) => {
            lemma_covers_settle(e.step(off), s);
            lemma_covers_step(e, off, s);
        },
    }
}

/// A stream that ends inside the interval after a symbol ends inside the part
/// of that symbol, and so inside the interval before.
pub(crate) proof fn lemma_covers_code(e: Encoder, cf: Seq<u16>, symbol: int, s: Seq<bool>)
    requires
        is_settled(e.low, e.high),
        is_table(cf),
        0 <= symbol < cf.len(),
        e.code(cf, symbol).covers(s),
    ensures
        e.narrow(cf, symbol).covers(s),
        e.covers(s),
{
    lemma_part(e.low, e.high, cf, symbol);
    lemma_covers_settle(e.narrow(cf, symbol), s);
}

proof fn lemma_window_prefix(s: Seq<bool>, k: nat)
    requires
        k <= s.len(),
    ensures
        window(s, k) == bits::value(s.take(k as int)),
    decreases k,
{
    bits::lemma_empty();
    if k == 0 {
        assert(s.take(0) =~= Seq::empty());
    } else {
        lemma_window_prefix(s, (k - 1) as nat);
        let head = s.take(k - 1);
        assert(s.take(k as int) =~= head.push(s[k - 1]));
        bits::lemma_value_push(head, s[k - 1]);
    }
}

proof fn lemma_window_grows(s: Seq<bool>, k: nat, m: nat)
    ensures
        window(s, k) * pow2(m) <= window(s, k + m) <= window(s, k) * pow2(m) + pow2(m) - 1,
    decreases m,
{
    lemma2_to64();
    let w = window(s, k);
    if m > 0 {
        lemma_window_grows(s, k, (m - 1) as nat);
        lemma_pow2_unfold(m);
        let p = pow2((m - 1) as nat) as int;
        assert(w * (2 * p) == 2 * (w * p)) by (nonlinear_arith);
    } else {
        assert(w * 1 == w);
    }
}

/// Whatever follows the final flush, the stream ends inside the last interval.
pub(crate) proof fn lemma_finish_covers(e: Encoder, s: Seq<bool>)
    requires
        is_settled(e.low, e.high),
        e.finish().len() <= s.len(),
        s.take(e.finish().len() as int) == e.finish(),
    ensures
        e.covers(s),
        e.finish().len() == e.out.len() + e.pending + 2,
{
    let bit = e.low >= 16384;
    lemma_emit_value(e.out, e.pending + 1, bit);
    let k = (e.out.len() + e.pending + 2) as nat;
    lemma_window_prefix(s, k);
    lemma_window_grows(s, k, 14);
    lemma2_to64();
    lemma_pow2_unfold(e.pending + 1);
    let v = bits::value(e.out) as int;
    let p = pow2(e.pending) as int;
    let f = bits::value(e.finish()) as int;
    let vp = v * p;
    assert(v * (65536 * p) == 65536 * vp) by (nonlinear_arith)
        requires
            vp == v * p,
    ;
    assert(2 * v * (2 * p) == 4 * vp) by (nonlinear_arith)
        requires
            vp == v * p,
    ;
    assert((2 * v + 1) * (2 * p) == 4 * vp + 2 * p) by (nonlinear_arith)
        requires
            vp == v * p,
    ;
    assert(pow2(14) == 16384);
}

/// The decoder is where the encoder was, on a stream `s`.
pub open spec fn follows(d: Decoder, e: Encoder, s: Seq<bool>) -> bool {
    &&& d.low == e.low
    &&& d.high == e.high
    &&& d.used == e.out.len() + e.pending + 16
    &&& d.value == window(s, d.used) - e.base()
}

/// At the start of a block both stand at the start of their ranges.
pub(crate) proof fn lemma_start_follows(s: Seq<bool>)
    ensures
        follows(Decoder::start(s), Encoder::start(Seq::empty()), s),
        is_settled(0, 65535),
{
    bits::lemma_empty();
    lemma2_to64();
}

proof fn lemma_settle_follows(d: Decoder, e: Encoder, s: Seq<bool>)
    requires
        is_interval(e.low, e.high),
        follows(d, e, s),
    ensures
        follows(d.settle(s), e.settle(), s),
    decreases 65536 - (e.high - e.low),
{
    match offset(e.low, e.high) {
        None => {},
        Some(off) => {
            lemma_base_step(e, off);
            lemma_settle_follows(d.step(off, s), e.step(off), s);
        },
    }
}

/// Where the stream ends inside the interval after the symbol, the decoder
/// finds the symbol and follows the encoder over it.
pub(crate) proof fn lemma_next_follows(d: Decoder, e: Encoder, cf: Seq<u16>, symbol: int, s: Seq<bool>)
    requires
        follows(d, e, s),
        is_settled(e.low, e.high),
        is_table(cf),
        0 <= symbol < cf.len(),
        e.code(cf, symbol).covers(s),
    ensures
        d.is_valid(),
        d.symbol(cf) == symbol,
        follows(d.next(cf, s), e.code(cf, symbol), s),
        is_settled(e.code(cf, symbol).low, e.code(cf, symbol).high),
{
    lemma_covers_code(e, cf, symbol, s);
    lemma_coded_is_settled(e, cf, symbol);
    lemma_part(e.low, e.high, cf, symbol);
    lemma_decodes(d, cf, symbol);
    lemma_settle_follows(d.narrow(cf, symbol), e.narrow(cf, symbol), s);
}

/// An interval in the lower half sends a zero and doubles, one in the upper
/// half a one; one in the middle half doubles about the middle and puts a bit
/// off. A bit that is sent is followed by its opposite for each one that was
/// put off. Any other interval stays.
pub proof fn law_encoder_doubles(e: Encoder)
    requires
        is_interval(e.low, e.high),
    ensures
        e.high < 32768 ==> e.settle() == (Encoder {
            low: 2 * e.low,
            high: 2 * e.high + 1,
            pending: 0,
            out: e.out + seq![false] + Seq::new(e.pending, |i: int| true),
        }).settle(),
        e.low >= 32768 ==> e.settle() == (Encoder {
            low: 2 * e.low - 65536,
            high: 2 * e.high - 65535,
            pending: 0,
            out: e.out + seq![true] + Seq::new(e.pending, |i: int| false),
        }).settle(),
        16384 <= e.low < 32768 <= e.high < 49152 ==> e.settle() == (Encoder {
            low: 2 * e.low - 32768,
            high: 2 * e.high - 32767,
            pending: e.pending + 1,
            out: e.out,
        }).settle(),
        e.low < 32768 <= e.high && (e.low < 16384 || e.high >= 49152) ==> e.settle() == e,
{
    assert(bits::bit(false) =~= seq![false]);
    assert(bits::bit(true) =~= seq![true]);
    assert(Seq::new(e.pending, |i: int| !false) =~= Seq::new(e.pending, |i: int| true));
    assert(Seq::new(e.pending, |i: int| !true) =~= Seq::new(e.pending, |i: int| false));
}

/// A block ends with the quarter that its interval holds: a one where that is
/// the third, and its opposite once more than was put off.
pub proof fn law_encoder_finishes(e: Encoder)
    ensures
        e.low >= 16384 ==> e.finish() == e.out + seq![true] + Seq::new(
            e.pending + 1,
            |i: int| false,
        ),
        e.low < 16384 ==> e.finish() == e.out + seq![false] + Seq::new(
            e.pending + 1,
            |i: int| true,
        ),
{
    assert(bits::bit(false) =~= seq![false]);
    assert(bits::bit(true) =~= seq![true]);
    assert(Seq::new(e.pending + 1, |i: int| !false) =~= Seq::new(e.pending + 1, |i: int| true));
    assert(Seq::new(e.pending + 1, |i: int| !true) =~= Seq::new(e.pending + 1, |i: int| false));
}

/// A decoder doubles where an encoder does, and takes in one more bit of the
/// stream each time.
pub proof fn law_decoder_doubles(d: Decoder, s: Seq<bool>)
    requires
        is_interval(d.low, d.high),
    ensures
        ({
            let bit = if d.used < s.len() && s[d.used as int] { 1int } else { 0 };
            let off = if d.high < 32768 {
                0int
            } else if d.low >= 32768 {
                32768
            } else {
                16384
            };
            let stays = d.low < 32768 <= d.high && (d.low < 16384 || d.high >= 49152);
            &&& stays ==> d.settle(s) == d
            &&& !stays ==> d.settle(s) == (Decoder {
                low: 2 * (d.low - off),
                high: 2 * (d.high - off) + 1,
                value: 2 * (d.value - off) + bit,
                used: d.used + 1,
            }).settle(s)
        }),
{
}

/// The symbol that a decoder finds is the one in whose part its value stands.
pub proof fn law_decoder_finds_the_part(d: Decoder, cf: Seq<u16>)
    requires
        d.is_valid(),
        is_table(cf),
    ensures
        0 <= d.symbol(cf) < cf.len(),
        part_low(d.low, d.high, cf, d.symbol(cf)) <= d.value <= part_high(
            d.low,
            d.high,
            cf,
            d.symbol(cf),
        ),
{
    lemma_decoded_part(d, cf);
}

} // verus!
