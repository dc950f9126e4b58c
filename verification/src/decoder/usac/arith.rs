//! USAC spectral arithmetic decoding.
//!
//! This covers the coder itself: decoding one block's coefficient-pair
//! sequence into signed magnitudes, and turning those into linear
//! coefficients. Scalefactor-band bookkeeping and the surrounding frame syntax
//! belong to a frame decoder built on top of it.

use crate::bits;
use crate::bitstream::{BitReader, Cursor};
use crate::dsp::math;
use crate::encoder::usac::arith as encoding;
use crate::error::{DecodeError, DecodeErrorView, Error, ErrorView, Result};
use crate::range;
use crate::range::Decoder;
use crate::tables::usac_arith;
use crate::tables::usac_arith::{ArithTables, Contexts, History, Model, ESCAPE, MAX_PAIRS};
use vstd::prelude::*;

verus! {

/// The most escapes that a pair of `i32` magnitudes can have.
pub const MAX_ESCAPES: usize = 30;

/// What is left of a stream after `k` bits, none where it is shorter.
pub open spec fn after(s: Seq<bool>, k: int) -> Seq<bool> {
    s.skip(
        if k < s.len() {
            k
        } else {
            s.len() as int
        },
    )
}

/// Reads escapes and the symbol behind them: the symbol, the number of escapes
/// and the decoder after both; nothing where the escapes do not end in time.
pub open spec fn read_symbol(m: Model, d: Decoder, s: Seq<bool>, context: int, escapes: nat) -> Option<
    (int, nat, Decoder),
>
    decreases MAX_ESCAPES + 1 - escapes,
{
    let t = m.symbol_table(context, encoding::noted(escapes));
    let x = d.symbol(t);
    if x < ESCAPE {
        Some((x, escapes, d.next(t, s)))
    } else if escapes >= MAX_ESCAPES {
        None
    } else {
        read_symbol(m, d.next(t, s), s, context, escapes + 1)
    }
}

/// Reads `k` more bits of both magnitudes.
pub open spec fn read_planes(m: Model, d: Decoder, s: Seq<bool>, a: int, b: int, k: nat) -> (
    int,
    int,
    Decoder,
)
    decreases k,
{
    if k == 0 {
        (a, b, d)
    } else {
        let t = m.plane_table(a, b);
        let x = d.symbol(t);
        read_planes(m, d.next(t, s), s, 2 * a + x % 2, 2 * b + x / 2, (k - 1) as nat)
    }
}

/// How a block goes on.
pub enum Status {
    /// Pairs follow.
    Open,
    /// The sentinel was met: everything that follows is zero.
    Stopped,
    /// A pair was met that is larger than an `i32` can hold.
    Corrupt,
}

/// The decoder, the contexts and the magnitudes after some pairs.
#[verifier::ext_equal]
pub struct Progress {
    pub coder: Decoder,
    pub history: History,
    pub state: int,
    pub lines: Seq<int>,
    pub status: Status,
}

/// One more pair, number `at`.
pub open spec fn read_pair(m: Model, p: Progress, s: Seq<bool>, at: int) -> Progress {
    let context = p.history.context(at, p.state);
    let state = p.history.carried(at, p.state);
    match read_symbol(m, p.coder, s, context, 0) {
        None => Progress { status: Status::Corrupt, ..p },
        Some((x, escapes, d)) => {
            let (a, b, d) = if x == 0 {
                (0, 0, d)
            } else {
                read_planes(m, d, s, x % 4, x / 4, escapes)
            };
            if x == 0 && escapes > 0 {
                Progress { coder: d, state, status: Status::Stopped, ..p }
            } else if a + b >= i32::MAX {
                Progress { status: Status::Corrupt, ..p }
            } else {
                Progress {
                    coder: d,
                    history: p.history.with_pair(at, usac_arith::pair_size(a, b)),
                    state,
                    lines: p.lines.push(a).push(b),
                    status: Status::Open,
                }
            }
        },
    }
}

/// The state after `i` pairs of the block at the start of `s`, or after fewer
/// where it ends early.
pub open spec fn read_pairs(m: Model, h: History, s: Seq<bool>, i: nat) -> Progress
    decreases i,
{
    if i == 0 {
        Progress {
            coder: Decoder::start(s),
            history: h,
            state: h.first_state(),
            lines: Seq::empty(),
            status: Status::Open,
        }
    } else {
        let p = read_pairs(m, h, s, (i - 1) as nat);
        if p.status is Open {
            read_pair(m, p, s, i - 1)
        } else {
            p
        }
    }
}

/// The number of bits that the coded block takes up: those that the decoder
/// used, less the fourteen that it reads ahead.
pub open spec fn coded_bits(p: Progress) -> int {
    p.coder.used - 14
}

/// Whether the stream starts with a block of `n` pairs: no pair is too large,
/// and the block does not reach beyond the end of the stream.
pub open spec fn decodable(m: Model, h: History, s: Seq<bool>, n: nat) -> bool {
    let p = read_pairs(m, h, s, n);
    !(p.status is Corrupt) && coded_bits(p) <= s.len()
}

/// The first `k` lines with their signs, and the position in the stream behind
/// the signs; they start at `from`. A line that is not zero has a sign bit, set
/// where it is positive.
pub open spec fn signed(lines: Seq<int>, s: Seq<bool>, from: int, k: nat) -> (Seq<int>, int)
    decreases k,
{
    if k == 0 {
        (Seq::empty(), from)
    } else {
        let (v, at) = signed(lines, s, from, (k - 1) as nat);
        let x = lines[k - 1];
        if x == 0 {
            (v.push(0), at)
        } else if range::stream_bit(s, at) == 1 {
            (v.push(x), at + 1)
        } else {
            (v.push(-x), at + 1)
        }
    }
}

/// The lines of a block and the position in the stream behind it.
pub open spec fn decoded(m: Model, h: History, s: Seq<bool>, n: nat) -> (Seq<int>, int) {
    let p = read_pairs(m, h, s, n);
    signed(p.lines, s, coded_bits(p), p.lines.len())
}

/// The contexts behind a block of `n` pairs out of `pres_len`.
pub open spec fn decoded_history(m: Model, h: History, s: Seq<bool>, n: nat, pres_len: int) -> History {
    read_pairs(m, h, s, n).history.with_zeros(n as int, pres_len)
}

/// The range decoder's interval, carried across symbols within one block.
struct RangeDecoder {
    low: u32,
    high: u32,
    value: u32,
    /// Bits pulled from the stream so far, including the 16-bit priming read.
    bits_consumed: u32,
}

/// A bit past the end of the stream reads as zero: the coder is fed a few bits
/// beyond what a well-formed block strictly needs, and both sides agree that
/// those trailing reads are zero rather than an error.
fn next_bit(reader: &mut BitReader) -> (r: bool)
    ensures
        r == (range::stream_bit(old(reader)@, 0) == 1),
        final(reader)@ == after(old(reader)@, 1),
        final(reader).consumed() == old(reader).position_before(final(reader)@),
{
    proof {
        reveal(Cursor::flag);
    }
    match reader.read_bit() {
        Ok(bit) => bit,
        Err(_) => {
            assert(after(reader@, 1) =~= reader@);
            false
        },
    }
}

proof fn lemma_after(s: Seq<bool>, k: nat)
    ensures
        after(after(s, k as int), 1) == after(s, k as int + 1),
        range::stream_bit(after(s, k as int), 0) == range::stream_bit(s, k as int),
{
    assert(after(after(s, k as int), 1) =~= after(s, k as int + 1));
}

impl RangeDecoder {
    spec fn state(self) -> Decoder {
        Decoder {
            low: self.low as int,
            high: self.high as int,
            value: self.value as int,
            used: self.bits_consumed as nat,
        }
    }

    fn prime(reader: &mut BitReader) -> (r: Self)
        ensures
            r.state() == Decoder::start(old(reader)@),
            final(reader)@ == after(old(reader)@, 16),
            r.state().is_valid(),
    {
        let ghost s = reader@;
        let mut value: u32 = 0;
        let mut i: u32 = 0;
        proof {
            vstd::arithmetic::power2::lemma2_to64();
            assert(after(s, 0) =~= s);
        }
        while i < 16
            invariant
                i <= 16,
                value == range::window(s, i as nat),
                reader@ == after(s, i as int),
                value < vstd::arithmetic::power2::pow2(i as nat) <= 65536,
            decreases 16 - i,
        {
            proof {
                lemma_after(s, i as nat);
                vstd::arithmetic::power2::lemma2_to64();
                vstd::arithmetic::power2::lemma_pow2_unfold((i + 1) as nat);
                if i < 15 {
                    vstd::arithmetic::power2::lemma_pow2_strictly_increases((i + 1) as nat, 16);
                }
            }
            let bit: u32 = if next_bit(reader) {
                1
            } else {
                0
            };
            value = value * 2 + bit;
            i += 1;
        }
        Self { low: 0, high: 65535, value, bits_consumed: 16 }
    }

    /// Decode one symbol against `cum_freq`, a descending cumulative-frequency
    /// table zero-terminated at `cum_freq[cum_freq.len() - 1]`.
    fn decode_symbol(&mut self, reader: &mut BitReader, cum_freq: &[u16], Ghost(s): Ghost<Seq<bool>>) -> (r: i32)
        requires
            old(self).state().is_valid(),
            old(reader)@ == after(s, old(self).bits_consumed as int),
            range::is_table(cum_freq@),
            cum_freq@.len() <= 1000,
            old(self).bits_consumed + 16 <= u32::MAX,
        ensures
            r == old(self).state().symbol(cum_freq@),
            0 <= r < cum_freq@.len(),
            final(self).state() == old(self).state().next(cum_freq@, s),
            final(self).state().is_valid(),
            final(reader)@ == after(s, final(self).bits_consumed as int),
            old(self).bits_consumed <= final(self).bits_consumed <= old(self).bits_consumed + 16,
    {
        let ghost goal = self.state().next(cum_freq@, s);
        proof {
            range::lemma_decoded_part(self.state(), cum_freq@);
            range::lemma_next_is_valid(self.state(), cum_freq@, s);
        }
        let low: u32 = self.low;
        let range: u64 = (self.high - low + 1) as u64;
        let cumulative: u64 = ((self.value - low + 1) as u64 * 16384 - 1) / range;
        let symbol: i32 = find_symbol(cum_freq, cumulative as i32);
        proof {
            range::lemma_find_unique(cum_freq@, cumulative as int, symbol as int);
            range::lemma_part(self.low as int, self.high as int, cum_freq@, symbol as int);
            let w = range as int;
            let c = cum_freq@[symbol as int] as int;
            assert(0 <= w * c <= 65536 * 65535) by (nonlinear_arith)
                requires
                    0 <= w <= 65536,
                    0 <= c <= 65535,
            ;
            if symbol > 0 {
                let d = cum_freq@[symbol - 1] as int;
                assert(0 <= w * d <= 65536 * 65535) by (nonlinear_arith)
                    requires
                        0 <= w <= 65536,
                        0 <= d <= 65535,
                ;
            }
        }
        if symbol != 0 {
            self.high = low + (range * cum_freq[symbol as usize - 1] as u64 / 16384) as u32 - 1;
        }
        self.low = low + (range * cum_freq[symbol as usize] as u64 / 16384) as u32;
        assert(self.state() == old(self).state().narrow(cum_freq@, symbol as int));
        let ghost mut k: int = 0;
        proof {
            vstd::arithmetic::power2::lemma2_to64();
        }
        loop
            invariant
                range::is_interval(self.low as int, self.high as int),
                self.low <= self.value <= self.high,
                self.state().settle(s) == goal,
                reader@ == after(s, self.bits_consumed as int),
                k >= 0,
                self.high - self.low + 1 >= vstd::arithmetic::power2::pow2(k as nat),
                self.bits_consumed == old(self).bits_consumed + k,
                old(self).bits_consumed + 16 <= u32::MAX,
            ensures
                self.state() == goal,
                reader@ == after(s, self.bits_consumed as int),
                old(self).bits_consumed <= self.bits_consumed <= old(self).bits_consumed + 16,
            decreases 65536 - (self.high - self.low),
        {
            proof {
                encoding::lemma_width_bound(k as nat, self.high - self.low + 1);
            }
            let ghost before = self.state();
            if self.high < 32768 {
            } else if self.low >= 32768 {
                self.value = self.value - 32768;
                self.low = self.low - 32768;
                self.high = self.high - 32768;
            } else if self.low >= 16384 && self.high < 49152 {
                self.value = self.value - 16384;
                self.low = self.low - 16384;
                self.high = self.high - 16384;
            } else {
                break;
            }
            proof {
                lemma_after(s, self.bits_consumed as nat);
                vstd::arithmetic::power2::lemma_pow2_unfold((k + 1) as nat);
                encoding::lemma_width_bound((k + 1) as nat, 2 * (self.high - self.low + 1));
                k = k + 1;
            }
            self.low = self.low * 2;
            self.high = 2 * self.high + 1;
            let bit: u32 = if next_bit(reader) {
                1
            } else {
                0
            };
            self.value = self.value * 2 + bit;
            self.bits_consumed = self.bits_consumed + 1;
            proof {
                let off = range::offset(before.low, before.high)->0;
                assert(self.state() == before.step(off, s));
            }
        }
        symbol
    }
}

/// Locate the symbol whose cumulative-frequency interval contains `cumulative`:
/// the first entry that is not larger.
///
/// A bisection over any table length. The answer less one always lies in the
/// `cfl` places from `p`.
fn find_symbol(cum_freq: &[u16], cumulative: i32) -> (r: i32)
    requires
        range::is_table(cum_freq@),
        cum_freq@.len() <= 1000,
        cumulative >= 0,
    ensures
        0 <= r < cum_freq@.len(),
        cum_freq@[r as int] <= cumulative,
        r > 0 ==> cum_freq@[r - 1] > cumulative,
{
    let mut cfl: i32 = cum_freq.len() as i32;
    let mut p: i32 = -1;
    loop
        invariant_except_break
            2 <= cfl,
        invariant
            range::is_table(cum_freq@),
            cum_freq@.len() <= 1000,
            cumulative >= 0,
            -1 <= p,
            p + cfl <= cum_freq@.len() - 1,
            p >= 0 ==> cum_freq@[p as int] > cumulative,
            cum_freq@[p + cfl] <= cumulative,
        ensures
            -1 <= p < cum_freq@.len() - 1,
            p >= 0 ==> cum_freq@[p as int] > cumulative,
            cum_freq@[p + 1] <= cumulative,
        decreases cfl,
    {
        let q: i32 = p + cfl / 2;
        if cum_freq[q as usize] as i32 > cumulative {
            p = q;
            cfl = cfl + 1;
        }
        cfl = cfl / 2;
        if cfl <= 1 {
            break;
        }
    }
    p + 1
}

/// What a block ends in where a pair is too large or the stream too short.
pub open spec fn corrupt_block() -> ErrorView {
    ErrorView::Decode(
        DecodeErrorView::UsacError("block must carry as many bits as it coded"@),
    )
}

fn corrupt() -> (r: Error)
    ensures
        r@ == corrupt_block(),
{
    Error::Decode(DecodeError::UsacError("block must carry as many bits as it coded".to_owned()))
}

/// Reads escapes and the symbol behind them.
fn decode_escaped(
    coder: &mut RangeDecoder,
    reader: &mut BitReader,
    tables: &ArithTables,
    context: u32,
    Ghost(s): Ghost<Seq<bool>>,
) -> (r: Option<(i32, usize)>)
    requires
        old(coder).state().is_valid(),
        old(reader)@ == after(s, old(coder).bits_consumed as int),
        context < 0x20000,
        old(coder).bits_consumed + 1024 <= u32::MAX,
    ensures
        match read_symbol(tables@, old(coder).state(), s, context as int, 0) {
            None => r is None,
            Some((x, escapes, d)) => {
                &&& r == Some((x as i32, escapes as usize))
                &&& 0 <= x < ESCAPE
                &&& escapes <= MAX_ESCAPES
                &&& final(coder).state() == d
                &&& d.is_valid()
                &&& final(reader)@ == after(s, final(coder).bits_consumed as int)
                &&& old(coder).bits_consumed <= final(coder).bits_consumed
                &&& final(coder).bits_consumed <= old(coder).bits_consumed + 16 * (escapes + 1)
            },
        },
{
    let mut lev: usize = 0;
    let mut esc_nb: u32 = 0;
    loop
        invariant
            lev <= MAX_ESCAPES,
            esc_nb == encoding::noted(lev as nat),
            context < 0x20000,
            coder.state().is_valid(),
            reader@ == after(s, coder.bits_consumed as int),
            old(coder).bits_consumed <= coder.bits_consumed <= old(coder).bits_consumed + 16 * lev,
            old(coder).bits_consumed + 1024 <= u32::MAX,
            read_symbol(tables@, coder.state(), s, context as int, lev as nat) == read_symbol(
                tables@,
                old(coder).state(),
                s,
                context as int,
                0,
            ),
        decreases MAX_ESCAPES - lev,
    {
        let m: i32 = coder.decode_symbol(
            reader,
            tables.symbol_table(context, esc_nb),
            Ghost(s),
        );
        if m < ESCAPE {
            return Some((m, lev));
        }
        if lev >= MAX_ESCAPES {
            return None;
        }
        lev += 1;
        if esc_nb < 7 {
            esc_nb = esc_nb + 1;
        }
    }
}

/// Reads `k` more bits of both magnitudes.
fn decode_planes(
    coder: &mut RangeDecoder,
    reader: &mut BitReader,
    tables: &ArithTables,
    first: i32,
    second: i32,
    k: usize,
    Ghost(s): Ghost<Seq<bool>>,
) -> (r: (u64, u64))
    requires
        old(coder).state().is_valid(),
        old(reader)@ == after(s, old(coder).bits_consumed as int),
        0 <= first <= 3,
        0 <= second <= 3,
        k <= MAX_ESCAPES,
        old(coder).bits_consumed + 1024 <= u32::MAX,
    ensures
        ({
            let (a, b, d) = read_planes(
                tables@,
                old(coder).state(),
                s,
                first as int,
                second as int,
                k as nat,
            );
            &&& r == (a as u64, b as u64)
            &&& 0 <= a < 0x2_0000_0000
            &&& 0 <= b < 0x2_0000_0000
            &&& final(coder).state() == d
        }),
        final(coder).state().is_valid(),
        final(reader)@ == after(s, final(coder).bits_consumed as int),
        old(coder).bits_consumed <= final(coder).bits_consumed <= old(coder).bits_consumed + 16 * k,
{
    let mut a: u64 = first as u64;
    let mut b: u64 = second as u64;
    let mut i: usize = 0;
    proof {
        vstd::arithmetic::power2::lemma2_to64();
    }
    while i < k
        invariant
            i <= k <= MAX_ESCAPES,
            coder.state().is_valid(),
            reader@ == after(s, coder.bits_consumed as int),
            old(coder).bits_consumed <= coder.bits_consumed <= old(coder).bits_consumed + 16 * i,
            old(coder).bits_consumed + 1024 <= u32::MAX,
            a < 4 * vstd::arithmetic::power2::pow2(i as nat),
            b < 4 * vstd::arithmetic::power2::pow2(i as nat),
            vstd::arithmetic::power2::pow2(i as nat) <= 0x4000_0000,
            read_planes(tables@, coder.state(), s, a as int, b as int, (k - i) as nat)
                == read_planes(
                tables@,
                old(coder).state(),
                s,
                first as int,
                second as int,
                k as nat,
            ),
        decreases k - i,
    {
        let x: i32 = coder.decode_symbol(
            reader,
            tables.plane_table(
                if a == 0 {
                    0
                } else {
                    1
                },
                if b == 0 {
                    0
                } else {
                    1
                },
            ),
            Ghost(s),
        );
        proof {
            vstd::arithmetic::power2::lemma_pow2_unfold((i + 1) as nat);
            vstd::arithmetic::power2::lemma2_to64();
            if i < 29 {
                vstd::arithmetic::power2::lemma_pow2_strictly_increases((i + 1) as nat, 30);
            }
        }
        a = 2 * a + (x % 2) as u64;
        b = 2 * b + (x / 2) as u64;
        i += 1;
    }
    (a, b)
}

/// A block that has ended has ended.
pub(crate) proof fn lemma_ended(m: Model, h: History, s: Seq<bool>, i: nat, n: nat)
    requires
        i <= n,
        !(read_pairs(m, h, s, i).status is Open),
    ensures
        read_pairs(m, h, s, n) == read_pairs(m, h, s, i),
    decreases n,
{
    if i < n {
        lemma_ended(m, h, s, i, (n - 1) as nat);
    }
}

/// What a block of `n` pairs leaves in a buffer: its lines, zeros up to `2n`
/// where it ended early, and what was there before.
pub open spec fn filled(lines: Seq<int>, n: int, before: Seq<i32>) -> Seq<i32> {
    Seq::new(
        before.len(),
        |k: int|
            if k < lines.len() {
                lines[k] as i32
            } else if k < 2 * n {
                0i32
            } else {
                before[k]
            },
    )
}

/// What stands in the stream where a pair is expected.
enum Found {
    /// A pair of magnitudes.
    Pair(i32, i32),
    /// The early-stop sentinel: everything from here on is zero and was never
    /// transmitted.
    Stop,
    /// A pair that is too large.
    Corrupt,
}

/// Reads one pair.
fn decode_pair(
    coder: &mut RangeDecoder,
    reader: &mut BitReader,
    tables: &ArithTables,
    context: u32,
    Ghost(s): Ghost<Seq<bool>>,
    Ghost(p): Ghost<Progress>,
    Ghost(at): Ghost<int>,
) -> (r: Found)
    requires
        old(coder).state().is_valid(),
        old(coder).state() == p.coder,
        old(reader)@ == after(s, old(coder).bits_consumed as int),
        context < 0x20000,
        context == p.history.context(at, p.state),
        old(coder).bits_consumed + 4096 <= u32::MAX,
    ensures
        ({
            let next = read_pair(tables@, p, s, at);
            match r {
                Found::Corrupt => next.status is Corrupt,
                Found::Stop => {
                    &&& next.status is Stopped
                    &&& next.coder == final(coder).state()
                    &&& next.history == p.history
                    &&& next.lines == p.lines
                },
                Found::Pair(a, b) => {
                    &&& next.status is Open
                    &&& next.coder == final(coder).state()
                    &&& next.history == p.history.with_pair(
                        at,
                        usac_arith::pair_size(a as int, b as int),
                    )
                    &&& next.state == p.history.carried(at, p.state)
                    &&& next.lines == p.lines.push(a as int).push(b as int)
                    &&& a >= 0
                    &&& b >= 0
                    &&& a + b < i32::MAX
                },
            }
        }),
        !(r is Corrupt) ==> {
            &&& final(coder).state().is_valid()
            &&& final(reader)@ == after(s, final(coder).bits_consumed as int)
            &&& old(coder).bits_consumed <= final(coder).bits_consumed
            &&& final(coder).bits_consumed <= old(coder).bits_consumed + 1024
        },
{
    let found: Option<(i32, usize)> = decode_escaped(coder, reader, tables, context, Ghost(s));
    let (symbol, lev): (i32, usize) = match found {
        None => return Found::Corrupt,
        Some(x) => x,
    };
    if symbol == 0 {
        if lev > 0 {
            return Found::Stop;
        }
        return Found::Pair(0, 0);
    }
    let (a, b): (u64, u64) = decode_planes(
        coder,
        reader,
        tables,
        symbol % 4,
        symbol / 4,
        lev,
        Ghost(s),
    );
    if a + b >= 0x7FFF_FFFF {
        return Found::Corrupt;
    }
    Found::Pair(a as i32, b as i32)
}

/// Reads the magnitudes of a block: the lines and the number of bits that the
/// coder used, or nothing where a pair is too large.
fn decode_magnitudes(
    scratch: &mut BitReader,
    contexts: &mut Contexts,
    tables: &ArithTables,
    n: usize,
) -> (r: Option<(Vec<i32>, u32)>)
    requires
        n <= MAX_PAIRS,
    ensures
        ({
            let p = read_pairs(tables@, old(contexts)@, old(scratch)@, n as nat);
            match r {
                None => p.status is Corrupt,
                Some((lines, used)) => {
                    &&& !(p.status is Corrupt)
                    &&& lines@.len() == p.lines.len()
                    &&& lines@.len() <= 2 * n
                    &&& lines@.len() % 2 == 0
                    &&& forall|k: int|
                        0 <= k < lines@.len() ==> #[trigger] lines@[k] == p.lines[k] && lines@[k]
                            >= 0
                    &&& used == p.coder.used
                    &&& used >= 16
                    &&& final(contexts)@ == p.history
                },
            }
        }),
{
    let ghost m = tables@;
    let ghost h = contexts@;
    let ghost s = scratch@;
    let mut lines: Vec<i32> = Vec::with_capacity(2 * n);
    let mut coder: RangeDecoder = RangeDecoder::prime(scratch);
    let mut state: u32 = (contexts.prev(0) as u32) * 4096;
    let mut i: usize = 0;
    while i < n
        invariant
            i <= n <= MAX_PAIRS,
            m == tables@,
            h == old(contexts)@,
            s == old(scratch)@,
            contexts@ == read_pairs(m, h, s, i as nat).history,
            state == read_pairs(m, h, s, i as nat).state,
            state < 65536,
            coder.state() == read_pairs(m, h, s, i as nat).coder,
            read_pairs(m, h, s, i as nat).status is Open,
            coder.state().is_valid(),
            scratch@ == after(s, coder.bits_consumed as int),
            coder.bits_consumed <= 1024 * i + 16,
            coder.bits_consumed >= 16,
            lines@.len() == 2 * i,
            read_pairs(m, h, s, i as nat).lines.len() == 2 * i,
            forall|k: int|
                0 <= k < 2 * i ==> #[trigger] lines@[k] == read_pairs(m, h, s, i as nat).lines[k]
                    && lines@[k] >= 0,
        decreases n - i,
    {
        let ghost p = read_pairs(m, h, s, i as nat);
        let context: u32 = contexts.get_context(i, &mut state);
        let found: Found = decode_pair(
            &mut coder,
            scratch,
            tables,
            context,
            Ghost(s),
            Ghost(p),
            Ghost(i as int),
        );
        assert(read_pairs(m, h, s, (i + 1) as nat) == read_pair(m, p, s, i as int));
        let (a, b): (i32, i32) = match found {
            Found::Corrupt => {
                proof {
                    lemma_ended(m, h, s, (i + 1) as nat, n as nat);
                }
                return None;
            },
            Found::Stop => {
                proof {
                    lemma_ended(m, h, s, (i + 1) as nat, n as nat);
                }
                return Some((lines, coder.bits_consumed));
            },
            Found::Pair(a, b) => (a, b),
        };
        let size: i32 = if a + b + 1 < 15 {
            a + b + 1
        } else {
            15
        };
        contexts.set_pres(i as isize, size);
        lines.push(a);
        lines.push(b);
        i += 1;
    }
    Some((lines, coder.bits_consumed))
}

/// Decode `n` coefficient pairs into `quant[0..2n]` as [`decode_pairs`] does,
/// or report a block that cannot be decoded and leave everything as it was.
pub fn try_decode_pairs(
    reader: &mut BitReader,
    contexts: &mut Contexts,
    tables: &ArithTables,
    n: usize,
    pres_len: usize,
    quant: &mut [i32],
) -> (r: Result<()>)
    requires
        n <= pres_len <= MAX_PAIRS,
        2 * n <= old(quant)@.len(),
    ensures
        ({
            let m = tables@;
            let h = old(contexts)@.advanced(pres_len as int);
            let s = old(reader)@;
            let (lines, end) = decoded(m, h, s, n as nat);
            if decodable(m, h, s, n as nat) {
                &&& r is Ok
                &&& final(quant)@ == filled(lines, n as int, old(quant)@)
                &&& final(contexts)@ == decoded_history(m, h, s, n as nat, pres_len as int)
                &&& final(reader)@ == after(s, end)
            } else {
                &&& r matches Err(e)
                &&& e@ == corrupt_block()
                &&& final(quant)@ == old(quant)@
                &&& final(contexts)@ == old(contexts)@
                &&& final(reader)@ == old(reader)@
            }
        }),
        final(reader).consumed() == old(reader).position_before(final(reader)@),
{
    let ghost m = tables@;
    let ghost s = reader@;
    let mut next: Contexts = contexts.clone();
    next.advance(pres_len);
    let ghost h = next@;

    // Decoding runs against a private clone because the coder reads a few bits
    // further ahead than it ends up needing; the real amount consumed is only
    // known once decoding finishes.
    let mut scratch: BitReader = reader.clone();
    let (mut lines, used): (Vec<i32>, u32) = match decode_magnitudes(
        &mut scratch,
        &mut next,
        tables,
        n,
    ) {
        None => return Err(corrupt()),
        Some(x) => x,
    };
    let ghost p = read_pairs(m, h, s, n as nat);
    let true_bits: usize = (used - 14) as usize;
    if true_bits > reader.bits_remaining() {
        return Err(corrupt());
    }
    next.set_zeros(n, pres_len);
    match reader.skip_bits(true_bits) {
        Ok(_) => {},
        Err(_) => {
            assert(false);
        },
    }

    // Sign is not arithmetic-coded: one raw bit per nonzero coefficient,
    // 1 = positive, immediately following the coded block.
    let count: usize = lines.len();
    let ghost magnitudes = lines@;
    let mut k: usize = 0;
    assert(reader@ =~= after(s, true_bits as int));
    while k < count
        invariant
            k <= count == lines@.len() == magnitudes.len() == p.lines.len(),
            forall|j: int|
                0 <= j < count ==> #[trigger] magnitudes[j] == p.lines[j] && magnitudes[j] >= 0,
            forall|j: int| k <= j < count ==> #[trigger] lines@[j] == magnitudes[j],
            signed(p.lines, s, coded_bits(p), k as nat).0.len() == k,
            forall|j: int|
                0 <= j < k ==> #[trigger] lines@[j] == signed(
                    p.lines,
                    s,
                    coded_bits(p),
                    k as nat,
                ).0[j],
            signed(p.lines, s, coded_bits(p), k as nat).1 >= coded_bits(p) >= 0,
            reader@ == after(s, signed(p.lines, s, coded_bits(p), k as nat).1),
            reader.consumed() == old(reader).position_before(reader@),
        decreases count - k,
    {
        let ghost at = signed(p.lines, s, coded_bits(p), k as nat).1;
        assert(lines@[k as int] == magnitudes[k as int]);
        let x: i32 = lines[k];
        if x != 0 {
            proof {
                lemma_after(s, at as nat);
            }
            if !next_bit(reader) {
                lines[k] = -x;
            }
        }
        k += 1;
    }
    let mut k: usize = 0;
    while k < 2 * n
        invariant
            k <= 2 * n <= old(quant)@.len(),
            count == lines@.len(),
            n <= MAX_PAIRS,
            count <= 2 * n,
            quant@.len() == old(quant)@.len(),
            forall|j: int|
                0 <= j < k ==> #[trigger] quant@[j] == (if j < count {
                    lines@[j]
                } else {
                    0i32
                }),
            forall|j: int| k <= j < quant@.len() ==> #[trigger] quant@[j] == old(quant)@[j],
        decreases 2 * n - k,
    {
        quant[k] = if k < count {
            lines[k]
        } else {
            0
        };
        k += 1;
    }
    *contexts = next;
    assert(quant@ =~= filled(decoded(m, h, s, n as nat).0, n as int, old(quant)@));
    Ok(())
}

/// Decode `n` coefficient pairs (`2n` spectral lines) into `quant[0..2n]`,
/// advancing `contexts` for the next block.
///
/// `pres_len` is the block's full coefficient-pair budget; positions from `n`
/// to `pres_len` get the context's "coded zero" treatment without being read
/// from the bitstream (a band table that stops short of the transform size).
/// `quant` must hold at least `2 * n` entries, and the reader must stand in
/// front of a block; [`try_decode_pairs`] is for streams of which that is not
/// known.
pub fn decode_pairs(
    reader: &mut BitReader,
    contexts: &mut Contexts,
    tables: &ArithTables,
    n: usize,
    pres_len: usize,
    quant: &mut [i32],
)
    requires
        n <= pres_len <= MAX_PAIRS,
        2 * n <= old(quant)@.len(),
        decodable(
            tables@,
            old(contexts)@.advanced(pres_len as int),
            old(reader)@,
            n as nat,
        ),
    ensures
        ({
            let m = tables@;
            let h = old(contexts)@.advanced(pres_len as int);
            let s = old(reader)@;
            let (lines, end) = decoded(m, h, s, n as nat);
            &&& final(quant)@ == filled(lines, n as int, old(quant)@)
            &&& final(contexts)@ == decoded_history(m, h, s, n as nat, pres_len as int)
            &&& final(reader)@ == after(s, end)
        }),
        final(reader).consumed() == old(reader).position_before(final(reader)@),
{
    let _done: Result<()> = try_decode_pairs(reader, contexts, tables, n, pres_len, quant);
}

/// The noise generator's next state.
pub open spec fn next_seed(seed: int) -> int {
    (seed * 69069 + 5) % 0x1_0000_0000
}

/// The sign that a state of the noise generator stands for.
pub open spec fn seed_sign(seed: int) -> int {
    if (seed / 0x1_0000) % 2 == 1 {
        -1
    } else {
        1
    }
}

/// Advance the noise generator and return its sign, `+1` or `-1`.
///
/// The multiplier and increment are load-bearing: they make the noise sequence
/// reproducible bit for bit.
pub fn random_sign(seed: &mut u32) -> (r: i32)
    ensures
        *final(seed) == next_seed(*old(seed) as int),
        r == seed_sign(*final(seed) as int),
{
    let next: u32 = ((*seed as u64 * 69069 + 5) % 0x1_0000_0000) as u32;
    *seed = next;
    if (next / 0x1_0000) % 2 == 1 {
        -1
    } else {
        1
    }
}

/// A table of linear magnitudes: entries for 0 to 1024, small enough that the
/// interpolation between them fits in 32 bits.
pub open spec fn is_pow_table(pow: Seq<i32>) -> bool {
    &&& pow.len() >= 1025
    &&& forall|i: int| 0 <= i < pow.len() ==> 0 <= #[trigger] pow[i] < 0x800_0000
}

/// The linear magnitude of a coded one: from the table below 1024, and between
/// two entries of it from there on. Magnitudes end at 8191.
pub open spec fn linear_magnitude(pow: Seq<i32>, magnitude: int) -> int {
    let m = if magnitude < 8191 {
        magnitude
    } else {
        8191
    };
    if m < 1024 {
        pow[m] as int
    } else {
        ((pow[m / 8 + 1] - pow[m / 8]) * (m % 8) + pow[m / 8] * 8) * 2
    }
}

/// The linear value of a coded one, before it is scaled.
pub open spec fn linear_value(pow: Seq<i32>, q: i32) -> int {
    if q < 0 {
        -linear_magnitude(pow, -q)
    } else {
        linear_magnitude(pow, q as int)
    }
}

/// The state of the noise generator after the first `k` lines: it advances at
/// every zero that is filled.
pub open spec fn seed_after(quant: Seq<i32>, with_noise: bool, seed: int, k: nat) -> int
    decreases k,
{
    if k == 0 {
        seed
    } else {
        let s = seed_after(quant, with_noise, seed, (k - 1) as nat);
        if with_noise && quant[k - 1] == 0 {
            next_seed(s)
        } else {
            s
        }
    }
}

/// Line `i` as a linear coefficient: noise of a fixed level where a zero is
/// filled, the scaled linear value elsewhere.
pub open spec fn linear_coefficient(
    pow: Seq<i32>,
    quant: Seq<i32>,
    noise: int,
    with_noise: bool,
    seed: int,
    fac_fix: int,
    i: int,
) -> int {
    if with_noise && quant[i] == 0 {
        math::wrap32(
            (fac_fix * (seed_sign(seed_after(quant, with_noise, seed, (i + 1) as nat)) * noise))
                / 0x200_0000,
        )
    } else {
        math::wrap32((fac_fix * linear_value(pow, quant[i])) / 0x40_0000)
    }
}

/// Whether every line can be scaled in 64 bits.
pub open spec fn scalable(
    pow: Seq<i32>,
    quant: Seq<i32>,
    noise: int,
    with_noise: bool,
    fac_fix: int,
) -> bool {
    &&& with_noise ==> noise > i32::MIN && i64::MIN < fac_fix * noise <= i64::MAX
    &&& forall|i: int|
        0 <= i < quant.len() ==> (#[trigger] quant[i]) > i32::MIN && i64::MIN <= fac_fix
            * linear_value(pow, quant[i]) <= i64::MAX
}

/// Turn one block's signed coded magnitudes into linear coefficients.
///
/// `fac_fix` is the band's fixed-point scale; `noise_level_fixed` is a
/// noise-fill level. When `with_noise` is set, a zero input coefficient is
/// synthesized from `seed` instead of decoding to silence: USAC noise-fills
/// spectral gaps that would otherwise cost bits to code as exact zero, since
/// the ear doesn't need them exact. `pow` is the table of linear magnitudes.
pub fn dequantize(
    pow: &[i32],
    quant: &[i32],
    coef: &mut [i32],
    noise_level_fixed: i32,
    with_noise: bool,
    seed: &mut u32,
    fac_fix: i64,
)
    requires
        is_pow_table(pow@),
        quant@.len() <= old(coef)@.len(),
        scalable(pow@, quant@, noise_level_fixed as int, with_noise, fac_fix as int),
    ensures
        final(coef)@ == Seq::new(
            old(coef)@.len(),
            |i: int|
                if i < quant@.len() {
                    linear_coefficient(
                        pow@,
                        quant@,
                        noise_level_fixed as int,
                        with_noise,
                        *old(seed) as int,
                        fac_fix as int,
                        i,
                    ) as i32
                } else {
                    old(coef)@[i]
                },
        ),
        *final(seed) == seed_after(quant@, with_noise, *old(seed) as int, quant@.len()),
{
    let ghost q = quant@;
    let ghost noise = noise_level_fixed as int;
    let ghost seed0 = *seed as int;
    let mut i: usize = 0;
    while i < quant.len()
        invariant
            i <= quant@.len(),
            q == quant@,
            noise == noise_level_fixed,
            seed0 == *old(seed),
            is_pow_table(pow@),
            q.len() <= coef@.len(),
            coef@.len() == old(coef)@.len(),
            scalable(pow@, q, noise, with_noise, fac_fix as int),
            *seed == seed_after(q, with_noise, seed0, i as nat),
            forall|j: int|
                0 <= j < i ==> #[trigger] coef@[j] == linear_coefficient(
                    pow@,
                    q,
                    noise,
                    with_noise,
                    seed0,
                    fac_fix as int,
                    j,
                ) as i32,
            forall|j: int| i <= j < coef@.len() ==> #[trigger] coef@[j] == old(coef)@[j],
        decreases quant@.len() - i,
    {
        let x: i32 = quant[i];
        assert(q[i as int] > i32::MIN);
        if with_noise && x == 0 {
            let sign: i32 = random_sign(seed);
            let level: i32 = sign * noise_level_fixed;
            proof {
                assert(fac_fix * level == fac_fix * noise || fac_fix * level == -(fac_fix * noise))
                    by (nonlinear_arith)
                    requires
                        level == noise || level == -noise,
                ;
            }
            let wide: i64 = fac_fix * level as i64;
            proof {
                math::lemma_shr64(wide, 25);
                math::lemma_cast32(wide >> 25u32);
                vstd::arithmetic::power2::lemma2_to64();
            }
            coef[i] = (wide >> 25u32) as i32;
        } else {
            let scaled: i32 = linear(pow, x);
            let wide: i64 = fac_fix * scaled as i64;
            proof {
                math::lemma_shr64(wide, 22);
                math::lemma_cast32(wide >> 22u32);
                vstd::arithmetic::power2::lemma2_to64();
            }
            coef[i] = (wide >> 22u32) as i32;
        }
        i += 1;
    }
    assert(coef@ =~= Seq::new(
        old(coef)@.len(),
        |j: int|
            if j < q.len() {
                linear_coefficient(pow@, q, noise, with_noise, seed0, fac_fix as int, j) as i32
            } else {
                old(coef)@[j]
            },
    ));
}

/// The linear value of a coded one.
pub fn linear(pow: &[i32], q: i32) -> (r: i32)
    requires
        is_pow_table(pow@),
        q > i32::MIN,
    ensures
        r == linear_value(pow@, q),
{
    let size: i32 = if q < 0 {
        -q
    } else {
        q
    };
    let magnitude: i32 = if size < 8191 {
        size
    } else {
        8191
    };
    let at: usize = (magnitude / 8) as usize;
    let value: i32 = if magnitude < 1024 {
        assert(0 <= pow@[magnitude as int] < 0x800_0000);
        pow[magnitude as usize]
    } else {
        let interp: i32 = magnitude % 8;
        let low: i32 = pow[at];
        let high: i32 = pow[at + 1];
        proof {
            assert(0 <= pow@[at as int] < 0x800_0000);
            assert(0 <= pow@[at + 1] < 0x800_0000);
            let step = high - low;
            assert((step * interp) == high * interp - low * interp) by (nonlinear_arith)
                requires
                    step == high - low,
            ;
            assert(0 <= high * interp <= 0x7FF_FFFF * interp) by (nonlinear_arith)
                requires
                    0 <= high <= 0x7FF_FFFF,
                    0 <= interp <= 7,
            ;
            assert(0 <= low * interp <= low * 8 - low) by (nonlinear_arith)
                requires
                    0 <= low,
                    0 <= interp <= 7,
            ;
            assert(0 <= low * 8 - low * interp <= 0x7FF_FFFF * (8 - interp)) by (nonlinear_arith)
                requires
                    0 <= low <= 0x7FF_FFFF,
                    0 <= interp <= 7,
            ;
        }
        ((high - low) * interp + low * 8) * 2
    };
    if q < 0 {
        -value
    } else {
        value
    }
}

proof fn lemma_seed_rests(quant: Seq<i32>, seed: int, k: nat)
    ensures
        seed_after(quant, false, seed, k) == seed,
    decreases k,
{
    if k > 0 {
        lemma_seed_rests(quant, seed, (k - 1) as nat);
    }
}

/// Filling with noise touches zeros only: wherever a line is not zero, a run
/// with noise and one without give the same coefficient, and a run without
/// leaves the noise generator alone.
pub proof fn law_noise_fills_zeros_only(
    pow: Seq<i32>,
    quant: Seq<i32>,
    noise: int,
    seed: int,
    other: int,
    fac_fix: int,
    i: int,
)
    requires
        0 <= i < quant.len(),
    ensures
        quant[i] != 0 ==> linear_coefficient(pow, quant, noise, true, seed, fac_fix, i)
            == linear_coefficient(pow, quant, noise, false, other, fac_fix, i),
        seed_after(quant, false, seed, quant.len()) == seed,
{
    lemma_seed_rests(quant, seed, quant.len());
}

} // verus!
