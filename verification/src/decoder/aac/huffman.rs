//! Spectral and scalefactor Huffman decoding.

use crate::bits;
use crate::bitstream;
use crate::bitstream::{BitReader, Cursor};
use crate::encoder::aac::huffman as encoding;
use crate::encoder::aac::huffman::{codebook, Codebook, Codes, Codeword, EncodeTables};
use crate::error::{DecodeError, DecodeErrorView, Error, ErrorView, Result};
use vstd::arithmetic::power2::*;
use vstd::prelude::*;

verus! {

/// The number by which the scalefactor codebook is named in errors.
pub const SCALEFACTOR_BOOK: u8 = 0;

/// The longest codeword.
pub const MAX_CODE_LEN: usize = 31;

/// The first symbol from `from` on that has the codeword `word` of `len` bits.
pub open spec fn lookup(table: Seq<Codeword>, word: int, len: int, from: int) -> Option<int>
    decreases table.len() - from,
{
    if from >= table.len() {
        None
    } else if from >= 0 && table[from].len == len && table[from].bits == word {
        Some(from)
    } else {
        lookup(table, word, len, from + 1)
    }
}

pub open spec fn invalid_code(cb: u8, word: nat) -> ErrorView {
    ErrorView::Decode(DecodeErrorView::HuffmanDecodeError { codebook: cb, bits: word as u32 })
}

/// Reads a codeword of which `len` bits have been read as `word`: bits are
/// added until they are a codeword.
pub open spec fn read_code(table: Seq<Codeword>, cb: u8, c: Cursor, word: nat, len: nat) -> (
    int,
    Cursor,
)
    decreases MAX_CODE_LEN - len,
{
    let (bit, c) = c.flag();
    let word = 2 * word + if bit {
        1nat
    } else {
        0
    };
    if c.fault is Some {
        (0, c)
    } else {
        match lookup(table, word as int, len as int + 1, 0) {
            Some(symbol) => (symbol, c),
            None => if len + 1 >= MAX_CODE_LEN {
                (0, c.fail_if(true, invalid_code(cb, word)))
            } else {
                read_code(table, cb, c, word, len + 1)
            },
        }
    }
}

pub(crate) proof fn lemma_lookup(table: Seq<Codeword>, word: int, len: int, from: int)
    requires
        0 <= from,
    ensures
        match lookup(table, word, len, from) {
            Some(i) => from <= i < table.len() && table[i].len == len && table[i].bits == word,
            None => forall|i: int|
                from <= i < table.len() ==> !(table[i].len == len && (#[trigger] table[i]).bits
                    == word),
        },
    decreases table.len() - from,
{
    if from < table.len() && !(table[from].len == len && table[from].bits == word) {
        lemma_lookup(table, word, len, from + 1);
    }
}

fn find(table: &[Codeword], word: u32, len: u8) -> (r: Option<usize>)
    ensures
        match lookup(table@, word as int, len as int, 0) {
            Some(i) => r is Some && r->0 == i && 0 <= i < table@.len(),
            None => r is None,
        },
{
    let mut i: usize = 0;
    while i < table.len()
        invariant
            i <= table@.len(),
            lookup(table@, word as int, len as int, 0) == lookup(
                table@,
                word as int,
                len as int,
                i as int,
            ),
        decreases table@.len() - i,
    {
        if table[i].len == len && table[i].bits == word {
            return Some(i);
        }
        i += 1;
    }
    None
}

/// Reads one codeword.
fn decode_code(reader: &mut BitReader, table: &[Codeword], cb: u8) -> (r: Result<usize>)
    ensures
        ({
            let (symbol, c) = read_code(table@, cb, old(reader).cursor(), 0, 0);
            &&& final(reader)@ == c.bits
            &&& final(reader).consumed() == old(reader).position_before(c.bits)
            &&& match r {
                Ok(x) => c.fault is None && x == symbol && symbol < table@.len(),
                Err(e) => c.fault == Some(e@),
            }
        }),
{
    let mut word: u32 = 0;
    let mut len: u8 = 0;
    proof {
        lemma2_to64();
    }
    loop
        invariant
            len < MAX_CODE_LEN,
            word < pow2(len as nat) <= 0x8000_0000,
            read_code(table@, cb, reader.cursor(), word as nat, len as nat) == read_code(
                table@,
                cb,
                old(reader).cursor(),
                0,
                0,
            ),
            reader.consumed() == old(reader).position_before(reader@),
        decreases MAX_CODE_LEN - len,
    {
        proof {
            lemma_pow2_unfold((len + 1) as nat);
            lemma2_to64();
            if len < 30 {
                lemma_pow2_strictly_increases((len + 1) as nat, 31);
            }
        }
        let bit: bool = reader.read_bit()?;
        word = word * 2 + if bit {
            1
        } else {
            0
        };
        len += 1;
        match find(table, word, len) {
            Some(symbol) => return Ok(symbol),
            None => {
                if len as usize >= MAX_CODE_LEN {
                    return Err(
                        Error::Decode(DecodeError::HuffmanDecodeError { codebook: cb, bits: word }),
                    );
                }
            },
        }
    }
}

/// Whether the words of a codebook fit their lengths and none is the start of
/// another.
pub open spec fn is_prefix_code(table: Seq<Codeword>) -> bool {
    &&& forall|i: int|
        0 <= i < table.len() && (#[trigger] table[i]).len > 0 ==> table[i].len <= MAX_CODE_LEN
            && table[i].bits < pow2(table[i].len as nat)
    &&& forall|i: int, j: int|
        #![trigger table[i], table[j]]
        0 <= i < table.len() && 0 <= j < table.len() && i != j && 0 < table[i].len <= table[j].len
            ==> table[j].bits as int / pow2((table[j].len - table[i].len) as nat) as int
            != table[i].bits
}

/// The first `k` bits of a codeword as a number.
proof fn lemma_uint_split(v: nat, n: nat, k: nat, rest: Seq<bool>)
    requires
        k < n,
    ensures
        ({
            let all = bits::uint(v, n) + rest;
            let bit = (v / pow2((n - k - 1) as nat)) % 2 == 1;
            &&& all.skip(k as int).len() > 0
            &&& all.skip(k as int)[0] == bit
            &&& all.skip(k as int).skip(1) == all.skip(k as int + 1)
            &&& v / pow2((n - k - 1) as nat) == 2 * (v / pow2((n - k) as nat)) + (if bit {
                1nat
            } else {
                0
            })
        }),
{
    bits::lemma_uint_len(v, n);
    bits::lemma_uint_index(v, n, k as int);
    let all = bits::uint(v, n) + rest;
    assert(all.skip(k as int).skip(1) =~= all.skip(k as int + 1));
    let m = (n - k - 1) as nat;
    lemma_pow2_unfold(m + 1);
    lemma_pow2_pos(m);
    vstd::arithmetic::div_mod::lemma_div_denominator(v as int, pow2(m) as int, 2);
    assert(pow2(m) as int * 2 == pow2(m + 1));
}

/// From its `k`th bit on, the codeword of `symbol` is read as `symbol`.
proof fn lemma_code_tail(
    table: Seq<Codeword>,
    cb: u8,
    symbol: int,
    k: nat,
    rest: Seq<bool>,
)
    requires
        is_prefix_code(table),
        0 <= symbol < table.len(),
        k < table[symbol].len,
    ensures
        ({
            let v = table[symbol].bits as nat;
            let n = table[symbol].len as nat;
            let all = table[symbol].word() + rest;
            read_code(
                table,
                cb,
                Cursor::at(all.skip(k as int)),
                v / pow2((n - k) as nat),
                k,
            ) == (symbol, Cursor::at(rest))
        }),
    decreases table[symbol].len - k,
{
    let v = table[symbol].bits as nat;
    let n = table[symbol].len as nat;
    let all = table[symbol].word() + rest;
    reveal(Cursor::flag);
    lemma_uint_split(v, n, k, rest);
    bits::lemma_uint_len(v, n);
    let word = v / pow2((n - k - 1) as nat);
    let c = Cursor::at(all.skip(k as int));
    let bit = c.flag().0;
    assert(c.flag() == (word % 2 == 1, Cursor::at(all.skip(k as int + 1))));
    assert(2 * (v / pow2((n - k) as nat)) + (if bit {
        1nat
    } else {
        0
    }) == word);
    assert(n <= MAX_CODE_LEN);
    lemma_lookup(table, word as int, k as int + 1, 0);
    if k + 1 == n {
        lemma2_to64();
        assert(word == v) by (nonlinear_arith)
            requires
                word == v / pow2(0),
                pow2(0) == 1,
        ;
        assert(table[symbol].len == k + 1 && table[symbol].bits == word);
        match lookup(table, word as int, k as int + 1, 0) {
            Some(i) => {
                if i != symbol {
                    assert(table[symbol].bits as int / pow2(0) as int == table[i].bits);
                    assert(false);
                }
            },
            None => {
                assert(false);
            },
        }
        assert(all.skip(n as int) =~= rest);
        assert(read_code(table, cb, c, v / pow2(1), k) == (symbol, Cursor::at(rest)));
    } else {
        match lookup(table, word as int, k as int + 1, 0) {
            Some(i) => {
                assert(table[i].len == k + 1);
                assert(table[symbol].bits as int / pow2((table[symbol].len - table[i].len) as nat)
                    as int == table[i].bits);
                assert(false);
            },
            None => {},
        }
        lemma_code_tail(table, cb, symbol, k + 1, rest);
        lemma_code_more(table, cb, c, v / pow2((n - k) as nat), k);
    }
}

/// Where the bits so far are no codeword, one more is read.
proof fn lemma_code_more(table: Seq<Codeword>, cb: u8, c: Cursor, word: nat, len: nat)
    requires
        len + 1 < MAX_CODE_LEN,
        c.flag().1.fault is None,
        lookup(
            table,
            2 * word + (if c.flag().0 {
                1int
            } else {
                0
            }),
            len as int + 1,
            0,
        ) is None,
    ensures
        read_code(table, cb, c, word, len) == read_code(
            table,
            cb,
            c.flag().1,
            2 * word + (if c.flag().0 {
                1nat
            } else {
                0
            }),
            len + 1,
        ),
{
}

/// Reading a codeword of a prefix code gives back its symbol and leaves what
/// follows.
pub proof fn law_code_roundtrip(table: Seq<Codeword>, cb: u8, symbol: int, rest: Seq<bool>)
    requires
        is_prefix_code(table),
        0 <= symbol < table.len(),
        table[symbol].len > 0,
    ensures
        read_code(table, cb, Cursor::at(table[symbol].word() + rest), 0, 0) == (
            symbol,
            Cursor::at(rest),
        ),
{
    let v = table[symbol].bits as nat;
    let n = table[symbol].len as nat;
    let all = table[symbol].word() + rest;
    assert(all.skip(0) =~= all);
    lemma_pow2_pos(n);
    vstd::arithmetic::div_mod::lemma_basic_div(v as int, pow2(n) as int);
    lemma_code_tail(table, cb, symbol, 0, rest);
}

/// Reads a scalefactor DPCM delta.
pub open spec fn read_delta(codes: Codes, c: Cursor) -> (int, Cursor) {
    let (symbol, c) = read_code(codes.scalefactor, SCALEFACTOR_BOOK, c, 0, 0);
    (symbol - 60, c)
}

/// Read a scalefactor DPCM delta.
pub fn decode_scalefactor_delta(reader: &mut BitReader, tables: &EncodeTables) -> (r: Result<i32>)
    ensures
        ({
            let (delta, c) = read_delta(tables@, old(reader).cursor());
            &&& final(reader)@ == c.bits
            &&& final(reader).consumed() == old(reader).position_before(c.bits)
            &&& match r {
                Ok(x) => c.fault is None && x == delta && -60 <= x <= 60,
                Err(e) => c.fault == Some(e@),
            }
        }),
{
    let table: &[Codeword] = tables.scalefactor_codes();
    let symbol: usize = decode_code(reader, table, SCALEFACTOR_BOOK)?;
    Ok(symbol as i32 - 60)
}

/// A scalefactor delta comes back from the bits it was written to.
pub proof fn law_delta_roundtrip(codes: Codes, delta: int, rest: Seq<bool>)
    requires
        is_prefix_code(codes.scalefactor),
        codes.delta_word(delta) is Some,
    ensures
        read_delta(codes, Cursor::at((codes.delta_word(delta)->0).word() + rest)) == (
            delta,
            Cursor::at(rest),
        ),
{
    law_code_roundtrip(codes.scalefactor, SCALEFACTOR_BOOK, delta + 60, rest);
}

/// The `k` digits of a number in base `m`, the highest first.
pub open spec fn digits(x: int, m: int, k: nat) -> Seq<int>
    decreases k,
{
    if k == 0 {
        Seq::empty()
    } else {
        digits(x / m, m, (k - 1) as nat).push(x % m)
    }
}

/// The first `k` values of an unsigned tuple: a sign follows for each digit
/// that is not zero.
pub open spec fn read_signs(ds: Seq<int>, c: Cursor, k: nat) -> (Seq<int>, Cursor)
    decreases k,
{
    if k == 0 {
        (Seq::empty(), c)
    } else {
        let (values, c) = read_signs(ds, c, (k - 1) as nat);
        let d = ds[k - 1];
        if d == 0 {
            (values.push(0), c)
        } else {
            let (negative, c) = c.flag();
            (
                values.push(
                    if negative {
                        -d
                    } else {
                        d
                    },
                ),
                c,
            )
        }
    }
}

/// An escape of at least `n` value bits.
pub open spec fn read_escape(c: Cursor, n: nat) -> (int, Cursor)
    decreases 21 - n,
{
    let (more, c) = c.flag();
    if !more {
        let (low, c) = c.read(n);
        ((pow2(n) + low) as int, c)
    } else if n >= 20 {
        (0, c.fail_if(true, invalid_code(11, n)))
    } else {
        read_escape(c, n + 1)
    }
}

/// The first `k` values of a tuple of codebook 11, in which the largest
/// magnitude stands for an escape.
pub open spec fn read_escapes(values: Seq<int>, c: Cursor, k: nat) -> (Seq<int>, Cursor)
    decreases k,
{
    if k == 0 {
        (Seq::empty(), c)
    } else {
        let (done, c) = read_escapes(values, c, (k - 1) as nat);
        let v = values[k - 1];
        if v == 16 || v == -16 {
            let (mag, c) = read_escape(c, 4);
            (
                done.push(
                    if v < 0 {
                        -mag
                    } else {
                        mag
                    },
                ),
                c,
            )
        } else {
            (done.push(v), c)
        }
    }
}

/// A tuple of codebook `cb`.
pub open spec fn read_tuple(codes: Codes, cb: u8, c: Cursor) -> (Seq<int>, Cursor) {
    let book = Codebook::of(cb)->0;
    let (symbol, c) = read_code(codes.spectral_table(cb), cb, c, 0, 0);
    let ds = digits(symbol, book.huff_mode as int, book.dim as nat);
    if !book.unsigned {
        (Seq::new(book.dim as nat, |i: int| ds[i] - book.lav), c)
    } else {
        let (values, c) = read_signs(ds, c, book.dim as nat);
        if cb == 11 {
            read_escapes(values, c, book.dim as nat)
        } else {
            (values, c)
        }
    }
}

/// The first `k` tuples of a band.
pub open spec fn read_band(codes: Codes, cb: u8, c: Cursor, k: nat) -> (Seq<int>, Cursor)
    decreases k,
{
    if k == 0 {
        (Seq::empty(), c)
    } else {
        let (values, c) = read_band(codes, cb, c, (k - 1) as nat);
        let (tuple, c) = read_tuple(codes, cb, c);
        (values + tuple, c)
    }
}

proof fn lemma_digits_len(x: int, m: int, k: nat)
    requires
        x >= 0,
        m > 0,
    ensures
        digits(x, m, k).len() == k,
        forall|i: int| 0 <= i < k ==> 0 <= #[trigger] digits(x, m, k)[i] < m,
    decreases k,
{
    if k > 0 {
        assert(x / m >= 0) by (nonlinear_arith)
            requires
                x >= 0,
                m > 0,
        ;
        lemma_digits_len(x / m, m, (k - 1) as nat);
    }
}

/// Splits a symbol into the digits of its tuple.
fn split_digits(symbol: usize, book: &Codebook) -> (r: Vec<i32>)
    requires
        book.huff_mode > 0,
    ensures
        r@.len() == book.dim,
        forall|i: int|
            0 <= i < r@.len() ==> #[trigger] r@[i] == digits(
                symbol as int,
                book.huff_mode as int,
                book.dim as nat,
            )[i] && 0 <= r@[i] < book.huff_mode,
    decreases book.dim,
{
    let m: usize = book.huff_mode as usize;
    proof {
        lemma_digits_len(symbol as int, m as int, book.dim as nat);
    }
    if book.dim == 0 {
        return Vec::new();
    }
    let shorter = Codebook { dim: book.dim - 1, ..*book };
    let mut out: Vec<i32> = split_digits(symbol / m, &shorter);
    out.push((symbol % m) as i32);
    out
}

broadcast proof fn lemma_signs_faulted(ds: Seq<int>, c: Cursor, i: nat, k: nat)
    requires
        i <= k,
        (#[trigger] read_signs(ds, c, i)).1.fault is Some,
    ensures
        (#[trigger] read_signs(ds, c, k)).1 == read_signs(ds, c, i).1,
    decreases k,
{
    broadcast use crate::bitstream::group_faulted;

    if i < k {
        lemma_signs_faulted(ds, c, i, (k - 1) as nat);
    }
}

proof fn lemma_escape_faulted(c: Cursor, n: nat)
    requires
        c.fault is Some,
    ensures
        read_escape(c, n).1 == c,
{
    broadcast use crate::bitstream::group_faulted;

}

proof fn lemma_escapes_faulted(vs: Seq<int>, c: Cursor, i: nat, k: nat)
    requires
        i <= k,
        read_escapes(vs, c, i).1.fault is Some,
    ensures
        read_escapes(vs, c, k).1 == read_escapes(vs, c, i).1,
    decreases k,
{
    if i < k {
        lemma_escapes_faulted(vs, c, i, (k - 1) as nat);
        lemma_escape_faulted(read_escapes(vs, c, i).1, 4);
    }
}

pub(crate) proof fn lemma_code_faulted(table: Seq<Codeword>, cb: u8, c: Cursor)
    requires
        c.fault is Some,
    ensures
        read_code(table, cb, c, 0, 0).1 == c,
{
    broadcast use crate::bitstream::group_faulted;

}

proof fn lemma_tuple_faulted(codes: Codes, cb: u8, c: Cursor)
    requires
        c.fault is Some,
    ensures
        read_tuple(codes, cb, c).1 == c,
{
    let book = Codebook::of(cb)->0;
    lemma_code_faulted(codes.spectral_table(cb), cb, c);
    let ds = digits(
        read_code(codes.spectral_table(cb), cb, c, 0, 0).0,
        book.huff_mode as int,
        book.dim as nat,
    );
    lemma_signs_faulted(ds, c, 0, book.dim as nat);
    lemma_escapes_faulted(read_signs(ds, c, book.dim as nat).0, c, 0, book.dim as nat);
}

proof fn lemma_band_faulted(codes: Codes, cb: u8, c: Cursor, i: nat, k: nat)
    requires
        i <= k,
        read_band(codes, cb, c, i).1.fault is Some,
    ensures
        read_band(codes, cb, c, k).1 == read_band(codes, cb, c, i).1,
    decreases k,
{
    if i < k {
        lemma_band_faulted(codes, cb, c, i, (k - 1) as nat);
        lemma_tuple_faulted(codes, cb, read_band(codes, cb, c, i).1);
    }
}

/// Reads the signs of a tuple into its digits.
fn decode_signs(reader: &mut BitReader, ds: &Vec<i32>) -> (r: Result<Vec<i32>>)
    requires
        forall|i: int| 0 <= i < ds@.len() ==> 0 <= #[trigger] ds@[i] <= 16,
    ensures
        ({
            let given = Seq::new(ds@.len(), |i: int| ds@[i] as int);
            let (values, c) = read_signs(given, old(reader).cursor(), ds@.len());
            &&& final(reader)@ == c.bits
            &&& final(reader).consumed() == old(reader).position_before(c.bits)
            &&& match r {
                Ok(v) => {
                    &&& c.fault is None
                    &&& v@.len() == values.len() == ds@.len()
                    &&& forall|i: int|
                        0 <= i < v@.len() ==> #[trigger] v@[i] == values[i] && -16 <= v@[i] <= 16
                },
                Err(e) => c.fault == Some(e@),
            }
        }),
{
    let ghost given = Seq::new(ds@.len(), |i: int| ds@[i] as int);
    let ghost start = reader.cursor();
    let mut out: Vec<i32> = Vec::new();
    let mut k: usize = 0;
    while k < ds.len()
        invariant
            k <= ds@.len(),
            given == Seq::new(ds@.len(), |i: int| ds@[i] as int),
            start == old(reader).cursor(),
            forall|i: int| 0 <= i < ds@.len() ==> 0 <= #[trigger] ds@[i] <= 16,
            read_signs(given, start, k as nat).1 == reader.cursor(),
            reader.consumed() == old(reader).position_before(reader@),
            out@.len() == k,
            read_signs(given, start, k as nat).0.len() == k,
            forall|i: int|
                0 <= i < k ==> #[trigger] out@[i] == read_signs(given, start, k as nat).0[i]
                    && -16 <= out@[i] <= 16,
        decreases ds@.len() - k,
    {
        let d: i32 = ds[k];
        assert(given[k as int] == d);
        proof {
            if read_signs(given, start, (k + 1) as nat).1.fault is Some {
                lemma_signs_faulted(given, start, (k + 1) as nat, ds@.len());
            }
        }
        if d == 0 {
            out.push(0);
        } else {
            let negative: bool = reader.read_bit()?;
            out.push(
                if negative {
                    -d
                } else {
                    d
                },
            );
        }
        k += 1;
    }
    Ok(out)
}

/// Reads one escape.
fn decode_escape(reader: &mut BitReader) -> (r: Result<i32>)
    ensures
        ({
            let (mag, c) = read_escape(old(reader).cursor(), 4);
            &&& final(reader)@ == c.bits
            &&& final(reader).consumed() == old(reader).position_before(c.bits)
            &&& match r {
                Ok(x) => c.fault is None && x == mag && 0 <= x < 0x20_0000,
                Err(e) => c.fault == Some(e@),
            }
        }),
{
    broadcast use crate::bitstream::group_faulted;

    let mut n: u32 = 4;
    loop
        invariant
            4 <= n <= 20,
            read_escape(reader.cursor(), n as nat) == read_escape(old(reader).cursor(), 4),
            reader.consumed() == old(reader).position_before(reader@),
        decreases 20 - n,
    {
        proof {
            lemma2_to64();
            if n < 20 {
                lemma_pow2_strictly_increases(n as nat, 20);
            }
            vstd::bits::lemma_u64_shl_is_mul(1, n as u64);
            bitstream::lemma_flag_faulted(reader.cursor());
            bitstream::lemma_read_faulted(reader.cursor().flag().1, n as nat);
        }
        let more: bool = reader.read_bit()?;
        if !more {
            let low: u32 = reader.read_u32(n as usize)?;
            return Ok((1u64 << (n as u64)) as i32 + low as i32);
        }
        if n >= 20 {
            return Err(
                Error::Decode(DecodeError::HuffmanDecodeError { codebook: 11, bits: n }),
            );
        }
        n += 1;
    }
}

/// Reads the escapes of a tuple of codebook 11.
fn decode_escapes(reader: &mut BitReader, vs: &Vec<i32>) -> (r: Result<Vec<i32>>)
    requires
        forall|i: int| 0 <= i < vs@.len() ==> -16 <= #[trigger] vs@[i] <= 16,
    ensures
        ({
            let given = Seq::new(vs@.len(), |i: int| vs@[i] as int);
            let (values, c) = read_escapes(given, old(reader).cursor(), vs@.len());
            &&& final(reader)@ == c.bits
            &&& final(reader).consumed() == old(reader).position_before(c.bits)
            &&& match r {
                Ok(v) => {
                    &&& c.fault is None
                    &&& v@.len() == values.len() == vs@.len()
                    &&& forall|i: int| 0 <= i < v@.len() ==> #[trigger] v@[i] == values[i]
                },
                Err(e) => c.fault == Some(e@),
            }
        }),
{
    let ghost given = Seq::new(vs@.len(), |i: int| vs@[i] as int);
    let ghost start = reader.cursor();
    let mut out: Vec<i32> = Vec::new();
    let mut k: usize = 0;
    while k < vs.len()
        invariant
            k <= vs@.len(),
            given == Seq::new(vs@.len(), |i: int| vs@[i] as int),
            start == old(reader).cursor(),
            forall|i: int| 0 <= i < vs@.len() ==> -16 <= #[trigger] vs@[i] <= 16,
            read_escapes(given, start, k as nat).1 == reader.cursor(),
            reader.consumed() == old(reader).position_before(reader@),
            out@.len() == k,
            read_escapes(given, start, k as nat).0.len() == k,
            forall|i: int|
                0 <= i < k ==> #[trigger] out@[i] == read_escapes(given, start, k as nat).0[i],
        decreases vs@.len() - k,
    {
        let v: i32 = vs[k];
        assert(given[k as int] == v);
        proof {
            if read_escapes(given, start, (k + 1) as nat).1.fault is Some {
                lemma_escapes_faulted(given, start, (k + 1) as nat, vs@.len());
            }
        }
        if v == 16 || v == -16 {
            let mag: i32 = decode_escape(reader)?;
            out.push(
                if v < 0 {
                    -mag
                } else {
                    mag
                },
            );
        } else {
            out.push(v);
        }
        k += 1;
    }
    Ok(out)
}

/// Reads one tuple of codebook `cb`.
fn decode_tuple(reader: &mut BitReader, tables: &EncodeTables, cb: u8, book: &Codebook) -> (r: Result<
    Vec<i32>,
>)
    requires
        Codebook::of(cb) == Some(*book),
    ensures
        ({
            let (values, c) = read_tuple(tables@, cb, old(reader).cursor());
            &&& final(reader)@ == c.bits
            &&& final(reader).consumed() == old(reader).position_before(c.bits)
            &&& match r {
                Ok(v) => {
                    &&& c.fault is None
                    &&& v@.len() == values.len() == book.dim
                    &&& forall|i: int| 0 <= i < v@.len() ==> #[trigger] v@[i] == values[i]
                },
                Err(e) => c.fault == Some(e@),
            }
        }),
{
    let ghost start = reader.cursor();
    let ghost dim = book.dim as nat;
    let table: &[Codeword] = tables.spectral_codes(cb);
    let ghost (symbol_read, after) = read_code(table@, cb, start, 0, 0);
    let ghost all = digits(symbol_read, book.huff_mode as int, dim);
    proof {
        if after.fault is Some {
            lemma_signs_faulted(all, after, 0, dim);
            lemma_escapes_faulted(read_signs(all, after, dim).0, after, 0, dim);
        }
    }
    let symbol: usize = decode_code(reader, table, cb)?;
    let ds: Vec<i32> = split_digits(symbol, book);
    if !book.unsigned {
        let mut out: Vec<i32> = Vec::new();
        let mut k: usize = 0;
        while k < ds.len()
            invariant
                k <= ds@.len(),
                out@.len() == k,
                Codebook::of(cb) == Some(*book),
                forall|i: int| 0 <= i < ds@.len() ==> 0 <= #[trigger] ds@[i] < book.huff_mode,
                forall|i: int| 0 <= i < k ==> #[trigger] out@[i] == ds@[i] - book.lav,
            decreases ds@.len() - k,
        {
            assert(0 <= ds@[k as int] < book.huff_mode);
            out.push(ds[k] - book.lav);
            k += 1;
        }
        return Ok(out);
    }
    proof {
        lemma_digits_len(symbol as int, book.huff_mode as int, dim);
        assert(Seq::new(ds@.len(), |i: int| ds@[i] as int) =~= all);
        if read_signs(all, after, dim).1.fault is Some {
            lemma_escapes_faulted(
                read_signs(all, after, dim).0,
                read_signs(all, after, dim).1,
                0,
                dim,
            );
        }
    }
    let vs: Vec<i32> = decode_signs(reader, &ds)?;
    if cb == 11 {
        proof {
            assert(Seq::new(vs@.len(), |i: int| vs@[i] as int) =~= read_signs(all, after, dim).0);
        }
        decode_escapes(reader, &vs)
    } else {
        Ok(vs)
    }
}

/// Read a band of spectral lines coded with codebook `cb`, as many whole tuples
/// as `out` holds.
pub fn decode_spectral_band(
    reader: &mut BitReader,
    tables: &EncodeTables,
    cb: u8,
    out: &mut [i32],
) -> (r: Result<()>)
    requires
        Codebook::of(cb) is Some,
        old(out)@.len() % (Codebook::of(cb)->0).dim as nat == 0,
    ensures
        final(out)@.len() == old(out)@.len(),
        ({
            let dim = (Codebook::of(cb)->0).dim as nat;
            let (values, c) = read_band(
                tables@,
                cb,
                old(reader).cursor(),
                old(out)@.len() / dim,
            );
            &&& final(reader)@ == c.bits
            &&& final(reader).consumed() == old(reader).position_before(c.bits)
            &&& match r {
                Ok(_) => {
                    &&& c.fault is None
                    &&& values.len() == final(out)@.len()
                    &&& forall|i: int|
                        0 <= i < final(out)@.len() ==> #[trigger] final(out)@[i] == values[i]
                },
                Err(e) => c.fault == Some(e@),
            }
        }),
{
    let book: Codebook = match codebook(cb) {
        Some(book) => book,
        None => return Ok(()),
    };
    let dim: usize = book.dim;
    let len: usize = out.len();
    let count: usize = len / dim;
    let ghost start = reader.cursor();
    let mut k: usize = 0;
    let mut at: usize = 0;
    proof {
        assert(count * dim == len) by (nonlinear_arith)
            requires
                count == len / dim,
                len % dim == 0,
                dim > 0,
        ;
    }
    while k < count
        invariant
            k <= count,
            at == k * dim,
            count * dim == len,
            len == out@.len() == old(out)@.len(),
            dim == book.dim,
            dim == 2 || dim == 4,
            Codebook::of(cb) == Some(book),
            start == old(reader).cursor(),
            count == old(out)@.len() / (Codebook::of(cb)->0).dim as nat,
            read_band(tables@, cb, start, k as nat).1 == reader.cursor(),
            reader.consumed() == old(reader).position_before(reader@),
            read_band(tables@, cb, start, k as nat).0.len() == at,
            forall|i: int|
                0 <= i < at ==> #[trigger] out@[i] == read_band(tables@, cb, start, k as nat).0[i],
        decreases count - k,
    {
        proof {
            if read_band(tables@, cb, start, (k + 1) as nat).1.fault is Some {
                lemma_band_faulted(tables@, cb, start, (k + 1) as nat, count as nat);
            }
            assert((k + 1) * dim == k * dim + dim) by (nonlinear_arith);
            assert((k + 1) * dim <= count * dim) by (nonlinear_arith)
                requires
                    k + 1 <= count,
                    dim > 0,
            ;
        }
        let tuple: Vec<i32> = decode_tuple(reader, tables, cb, &book)?;
        let ghost done = read_band(tables@, cb, start, k as nat).0;
        let mut j: usize = 0;
        while j < dim
            invariant
                j <= dim == tuple@.len(),
                at + dim <= len,
                len == out@.len(),
                done.len() == at,
                forall|i: int| 0 <= i < at ==> #[trigger] out@[i] == done[i],
                forall|i: int| at <= i < at + j ==> #[trigger] out@[i] == tuple@[i - at],
            decreases dim - j,
        {
            out[at + j] = tuple[j];
            j += 1;
        }
        at = at + dim;
        k += 1;
    }
    Ok(())
}

proof fn lemma_digits_of_symbol(cb: u8, book: Codebook, values: Seq<i32>, k: nat)
    requires
        Codebook::of(cb) == Some(book),
        k <= values.len(),
        encoding::tuple_symbol(cb, book, values, k) is Some,
    ensures
        encoding::tuple_symbol(cb, book, values, k)->0 >= 0,
        digits(
            encoding::tuple_symbol(cb, book, values, k)->0,
            book.huff_mode as int,
            k,
        ) == Seq::new(k, |i: int| encoding::digit(cb, book, values[i])->0),
    decreases k,
{
    let m = book.huff_mode as int;
    let want = Seq::new(k, |i: int| encoding::digit(cb, book, values[i])->0);
    if k == 0 {
        assert(want =~= Seq::empty());
    } else {
        let j = (k - 1) as nat;
        lemma_digits_of_symbol(cb, book, values, j);
        let head = encoding::tuple_symbol(cb, book, values, j)->0;
        let d = encoding::digit(cb, book, values[k - 1])->0;
        assert(0 <= d < m);
        let x = head * m + d;
        vstd::arithmetic::div_mod::lemma_fundamental_div_mod_converse(x, m, head, d);
        assert(x >= 0) by (nonlinear_arith)
            requires
                x == head * m + d,
                head >= 0,
                m > 0,
                d >= 0,
        ;
        let before = Seq::new(j, |i: int| encoding::digit(cb, book, values[i])->0);
        assert(before.push(d) =~= want);
    }
}

/// The signs of the first `k` values, followed by `rest`.
spec fn signs_before(values: Seq<i32>, k: nat, rest: Seq<bool>) -> Seq<bool>
    decreases k,
{
    if k == 0 {
        rest
    } else if values[k - 1] != 0 {
        signs_before(values, (k - 1) as nat, bits::flag(values[k - 1] < 0, rest))
    } else {
        signs_before(values, (k - 1) as nat, rest)
    }
}

proof fn lemma_signs_before(values: Seq<i32>, k: nat, rest: Seq<bool>)
    ensures
        encoding::tuple_signs(values, k) + rest == signs_before(values, k, rest),
    decreases k,
{
    if k == 0 {
        assert(Seq::<bool>::empty() + rest =~= rest);
    } else {
        let j = (k - 1) as nat;
        let b = bits::bit(values[k - 1] < 0);
        if values[k - 1] != 0 {
            lemma_signs_before(values, j, bits::flag(values[k - 1] < 0, rest));
            reveal(bits::flag);
            let head = encoding::tuple_signs(values, j);
            assert((head + b) + rest =~= head + (b + rest));
        } else {
            lemma_signs_before(values, j, rest);
        }
    }
}

/// The value that the sign of `v` gives to the digit of `v`.
spec fn with_sign(cb: u8, book: Codebook, v: i32) -> int {
    let d = encoding::digit(cb, book, v)->0;
    if v < 0 {
        -d
    } else {
        d
    }
}

proof fn lemma_signs_roundtrip(
    cb: u8,
    book: Codebook,
    values: Seq<i32>,
    ds: Seq<int>,
    k: nat,
    rest: Seq<bool>,
)
    requires
        Codebook::of(cb) == Some(book),
        book.unsigned,
        k <= values.len(),
        k <= ds.len(),
        forall|i: int|
            0 <= i < k ==> encoding::digit(cb, book, #[trigger] values[i]) == Some(ds[i]),
    ensures
        read_signs(ds, Cursor::at(signs_before(values, k, rest)), k) == (
            Seq::new(k, |i: int| with_sign(cb, book, values[i])),
            Cursor::at(rest),
        ),
    decreases k,
{
    let want = Seq::new(k, |i: int| with_sign(cb, book, values[i]));
    if k == 0 {
        assert(want =~= Seq::empty());
    } else {
        let j = (k - 1) as nat;
        let v = values[k - 1];
        let before = Seq::new(j, |i: int| with_sign(cb, book, values[i]));
        assert(encoding::digit(cb, book, v) == Some(ds[k - 1]));
        if v != 0 {
            lemma_signs_roundtrip(cb, book, values, ds, j, bits::flag(v < 0, rest));
            bitstream::lemma_read_flag(v < 0, rest);
        } else {
            lemma_signs_roundtrip(cb, book, values, ds, j, rest);
        }
        assert(before.push(with_sign(cb, book, v)) =~= want);
    }
}

/// An escape is read as it was written.
proof fn lemma_escape_roundtrip(mag: int, n: nat, j: nat, rest: Seq<bool>)
    requires
        4 <= j <= n <= 20,
        pow2(n) <= mag < pow2(n + 1),
    ensures
        ({
            let run = Seq::new((n - j) as nat, |i: int| true);
            let s = ((run + bits::bit(false)) + bits::uint((mag - pow2(n)) as nat, n)) + rest;
            read_escape(Cursor::at(s), j) == (mag, Cursor::at(rest))
        }),
    decreases n - j,
{
    let low = (mag - pow2(n)) as nat;
    let run = Seq::new((n - j) as nat, |i: int| true);
    let s = ((run + bits::bit(false)) + bits::uint(low, n)) + rest;
    bits::lemma_uint_len(low, n);
    reveal(Cursor::flag);
    if j == n {
        reveal(bits::field);
        assert(s.skip(1) =~= bits::uint(low, n) + rest);
        bitstream::lemma_read_field(low, n, rest);
        lemma_pow2_unfold(n + 1);
        vstd::arithmetic::div_mod::lemma_small_mod(low, pow2(n));
    } else {
        let shorter = Seq::new((n - j - 1) as nat, |i: int| true);
        assert(s.skip(1) =~= ((shorter + bits::bit(false)) + bits::uint(low, n)) + rest);
        lemma_escape_roundtrip(mag, n, j + 1, rest);
    }
}

proof fn lemma_escape_size(mag: int, n: nat)
    requires
        4 <= n <= 20,
        pow2(n) <= mag,
        encoding::escape_size(mag, n) is Some,
    ensures
        ({
            let k = encoding::escape_size(mag, n)->0;
            n <= k <= 20 && pow2(k) <= mag < pow2(k + 1)
        }),
    decreases 21 - n,
{
    reveal_with_fuel(encoding::escape_size, 2);
    if !(mag < pow2(n + 1)) && n < 20 {
        lemma_escape_size(mag, n + 1);
    }
}

/// The escapes of the first `k` values, followed by `rest`.
spec fn escapes_before(cb: u8, book: Codebook, values: Seq<i32>, k: nat, rest: Seq<bool>) -> Seq<
    bool,
>
    decreases k,
{
    if k == 0 {
        rest
    } else {
        let v = values[k - 1];
        let mag = encoding::magnitude(v);
        if encoding::escapes(cb, book, v) {
            escapes_before(
                cb,
                book,
                values,
                (k - 1) as nat,
                encoding::escape_word(mag, encoding::escape_size(mag, 4)->0) + rest,
            )
        } else {
            escapes_before(cb, book, values, (k - 1) as nat, rest)
        }
    }
}

proof fn lemma_escapes_before(cb: u8, book: Codebook, values: Seq<i32>, k: nat, rest: Seq<bool>)
    ensures
        encoding::tuple_escapes(cb, book, values, k) + rest == escapes_before(
            cb,
            book,
            values,
            k,
            rest,
        ),
    decreases k,
{
    if k == 0 {
        assert(Seq::<bool>::empty() + rest =~= rest);
    } else {
        let j = (k - 1) as nat;
        let v = values[k - 1];
        let mag = encoding::magnitude(v);
        let head = encoding::tuple_escapes(cb, book, values, j);
        let word = encoding::escape_word(mag, encoding::escape_size(mag, 4)->0);
        if encoding::escapes(cb, book, v) {
            lemma_escapes_before(cb, book, values, j, word + rest);
            assert((head + word) + rest =~= head + (word + rest));
        } else {
            lemma_escapes_before(cb, book, values, j, rest);
        }
    }
}

proof fn lemma_escapes_roundtrip(
    book: Codebook,
    values: Seq<i32>,
    vs: Seq<int>,
    k: nat,
    rest: Seq<bool>,
)
    requires
        Codebook::of(11) == Some(book),
        k <= values.len(),
        k <= vs.len(),
        forall|i: int|
            0 <= i < k ==> {
                &&& encoding::digit(11, book, #[trigger] values[i]) is Some
                &&& vs[i] == with_sign(11, book, values[i])
            },
    ensures
        read_escapes(vs, Cursor::at(escapes_before(11, book, values, k, rest)), k) == (
            Seq::new(k, |i: int| values[i] as int),
            Cursor::at(rest),
        ),
    decreases k,
{
    let want = Seq::new(k, |i: int| values[i] as int);
    if k == 0 {
        assert(want =~= Seq::empty());
    } else {
        let j = (k - 1) as nat;
        let v = values[k - 1];
        let mag = encoding::magnitude(v);
        let before = Seq::new(j, |i: int| values[i] as int);
        assert(encoding::digit(11, book, v) is Some && vs[k - 1] == with_sign(11, book, v));
        if encoding::escapes(11, book, v) {
            let n = encoding::escape_size(mag, 4)->0;
            let word = encoding::escape_word(mag, n);
            lemma_escapes_roundtrip(book, values, vs, j, word + rest);
            lemma2_to64();
            lemma_escape_size(mag, 4);
            lemma_escape_roundtrip(mag, n, 4, rest);
        } else {
            lemma_escapes_roundtrip(book, values, vs, j, rest);
        }
        assert(before.push(v as int) =~= want);
    }
}

/// A tuple comes back from the bits it was written to, whatever follows them:
/// for every codebook whose words are a prefix code, and for every tuple that
/// the codebook can represent.
pub proof fn law_tuple_roundtrip(codes: Codes, cb: u8, values: Seq<i32>, rest: Seq<bool>)
    requires
        is_prefix_code(codes.spectral_table(cb)),
        encoding::tuple_bits(codes, cb, values) is Some,
    ensures
        read_tuple(codes, cb, Cursor::at(encoding::tuple_bits(codes, cb, values)->0 + rest)) == (
            Seq::new(values.len(), |i: int| values[i] as int),
            Cursor::at(rest),
        ),
{
    let book = Codebook::of(cb)->0;
    let dim = values.len();
    let symbol = encoding::tuple_symbol(cb, book, values, dim)->0;
    let cw = codes.spectral_word(cb, symbol)->0;
    let ds = digits(symbol, book.huff_mode as int, dim);
    lemma_digits_of_symbol(cb, book, values, dim);
    assert forall|i: int| 0 <= i < dim implies encoding::digit(cb, book, #[trigger] values[i])
        == Some(ds[i]) by {
        lemma_tuple_digits(cb, book, values, dim, i);
    }
    if !book.unsigned {
        law_code_roundtrip(codes.spectral_table(cb), cb, symbol, rest);
        assert(Seq::new(dim, |i: int| ds[i] - book.lav) =~= Seq::new(
            dim,
            |i: int| values[i] as int,
        ));
    } else {
        let signs = encoding::tuple_signs(values, dim);
        let escapes = encoding::tuple_escapes(cb, book, values, dim);
        let tail = escapes + rest;
        assert(((cw.word() + signs) + escapes) + rest =~= cw.word() + (signs + tail));
        law_code_roundtrip(codes.spectral_table(cb), cb, symbol, signs + tail);
        lemma_signs_before(values, dim, tail);
        lemma_signs_roundtrip(cb, book, values, ds, dim, tail);
        let vs = Seq::new(dim, |i: int| with_sign(cb, book, values[i]));
        if cb == 11 {
            lemma_escapes_before(cb, book, values, dim, rest);
            lemma_escapes_roundtrip(book, values, vs, dim, rest);
        } else {
            lemma_no_escapes(cb, book, values, dim);
            assert(tail =~= rest);
            assert(vs =~= Seq::new(dim, |i: int| values[i] as int));
        }
    }
}

proof fn lemma_no_escapes(cb: u8, book: Codebook, values: Seq<i32>, k: nat)
    requires
        cb != 11,
    ensures
        encoding::tuple_escapes(cb, book, values, k) == Seq::<bool>::empty(),
    decreases k,
{
    if k > 0 {
        lemma_no_escapes(cb, book, values, (k - 1) as nat);
    }
}

proof fn lemma_tuple_digits(cb: u8, book: Codebook, values: Seq<i32>, k: nat, i: int)
    requires
        0 <= i < k <= values.len(),
        encoding::tuple_symbol(cb, book, values, k) is Some,
    ensures
        encoding::digit(cb, book, values[i]) is Some,
    decreases k,
{
    if i < k - 1 {
        lemma_tuple_digits(cb, book, values, (k - 1) as nat, i);
    }
}

} // verus!
