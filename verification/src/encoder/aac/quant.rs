//! Coding a band of quantized coefficients.
//!
//! A band is coded as a run of tuples with one codebook. Which codebook is a
//! matter of cost alone: any that can represent every value will do, and the
//! cheapest is taken.

use crate::bitstream::{BitWriter, Cursor};
use crate::decoder::aac::huffman as decoding;
use crate::encoder::aac::huffman;
use crate::encoder::aac::huffman::{
    codebook, minimum_codebook, tuple_cost, write_tuple, Codebook, Codes, EncodeTables,
};
use vstd::prelude::*;

verus! {

/// The scalefactor that stands for unit gain.
pub const SF_OFFSET: i32 = 100;

/// The largest magnitude that the bitstream can code.
pub const MAX_QUANT_MAGNITUDE: i32 = 8191;

/// The codebook of a band, and what coding the band with it costs.
#[derive(Debug, Clone, Copy, PartialEq, Eq, Structural)]
pub struct BandChoice {
    pub codebook: u8,
    pub bits: u32,
}

impl Default for BandChoice {
    fn default() -> (r: Self)
        ensures
            r == (BandChoice { codebook: 0, bits: 0 }),
    {
        BandChoice { codebook: 0, bits: 0 }
    }
}

/// Tuple `k` of a band.
pub open spec fn tuple(quant: Seq<i32>, dim: int, k: int) -> Seq<i32> {
    quant.subrange(k * dim, k * dim + dim)
}

/// The bits of the first `k` tuples of a band, if the codebook has them all.
pub open spec fn band_bits(codes: Codes, cb: u8, quant: Seq<i32>, k: nat) -> Option<Seq<bool>>
    decreases k,
{
    if k == 0 {
        Some(Seq::empty())
    } else {
        let dim = (Codebook::of(cb)->0).dim as int;
        match (
            band_bits(codes, cb, quant, (k - 1) as nat),
            huffman::tuple_bits(codes, cb, tuple(quant, dim, k - 1)),
        ) {
            (Some(head), Some(last)) => Some(head + last),
            _ => None,
        }
    }
}

/// The number of tuples of a band.
pub open spec fn tuples(cb: u8, len: nat) -> nat {
    len / (Codebook::of(cb)->0).dim as nat
}

/// The bits of a whole band.
pub open spec fn whole_band(codes: Codes, cb: u8, quant: Seq<i32>) -> Option<Seq<bool>> {
    band_bits(codes, cb, quant, tuples(cb, quant.len()))
}

/// Whether a codebook divides a band into whole tuples.
pub open spec fn divides(cb: u8, len: nat) -> bool {
    &&& Codebook::of(cb) is Some
    &&& len % (Codebook::of(cb)->0).dim as nat == 0
}

proof fn lemma_band_none(codes: Codes, cb: u8, quant: Seq<i32>, k: nat, more: nat)
    requires
        k <= more,
        band_bits(codes, cb, quant, k) is None,
    ensures
        band_bits(codes, cb, quant, more) is None,
    decreases more,
{
    if k < more {
        lemma_band_none(codes, cb, quant, k, (more - 1) as nat);
    }
}

proof fn lemma_tuple_inside(len: int, dim: int, k: int)
    requires
        dim > 0,
        0 <= k < len / dim,
    ensures
        0 <= k * dim,
        k * dim + dim <= len,
        (k + 1) * dim == k * dim + dim,
{
    vstd::arithmetic::div_mod::lemma_fundamental_div_mod(len, dim);
    assert(k * dim + dim <= (len / dim) * dim) by (nonlinear_arith)
        requires
            k + 1 <= len / dim,
            dim > 0,
    ;
    assert((len / dim) * dim <= len) by (nonlinear_arith)
        requires
            len == dim * (len / dim) + len % dim,
            len % dim >= 0,
    ;
    assert(0 <= k * dim) by (nonlinear_arith)
        requires
            k >= 0,
            dim > 0,
    ;
    assert((k + 1) * dim == k * dim + dim) by (nonlinear_arith);
}

fn slice_of(quant: &[i32], from: usize, to: usize) -> (r: &[i32])
    requires
        from <= to <= quant@.len(),
    ensures
        r@ == quant@.subrange(from as int, to as int),
{
    vstd::slice::slice_subrange(quant, from, to)
}

/// What coding a band with codebook `cb` costs, if the codebook can represent
/// it and the cost is less than four billion bits.
pub fn band_cost(tables: &EncodeTables, cb: u8, quant: &[i32]) -> (r: Option<u32>)
    requires
        divides(cb, quant@.len()),
        huffman::measurable(quant@),
    ensures
        match whole_band(tables@, cb, quant@) {
            Some(s) => if s.len() <= u32::MAX {
                r == Some(s.len() as u32)
            } else {
                r is None
            },
            None => r is None,
        },
{
    let book: Codebook = match codebook(cb) {
        Some(book) => book,
        None => {
            return None;
        },
    };
    let len: usize = quant.len();
    let count: usize = len / book.dim;
    let mut total: u32 = 0;
    let mut k: usize = 0;
    let mut at: usize = 0;
    while k < count
        invariant
            k <= count,
            Codebook::of(cb) == Some(book),
            book.dim > 0,
            len == quant@.len(),
            count == len as int / book.dim as int,
            count == tuples(cb, quant@.len()),
            at == k * book.dim,
            huffman::measurable(quant@),
            band_bits(tables@, cb, quant@, k as nat) is Some,
            total == (band_bits(tables@, cb, quant@, k as nat)->0).len(),
        decreases count - k,
    {
        proof {
            lemma_tuple_inside(quant@.len() as int, book.dim as int, k as int);
        }
        let part: &[i32] = slice_of(quant, at, at + book.dim);
        match tuple_cost(tables, cb, part) {
            Some(cost) => {
                if cost > u32::MAX - total {
                    proof {
                        lemma_band_grows(tables@, cb, quant@, (k + 1) as nat, count as nat);
                    }
                    return None;
                }
                total = total + cost;
            },
            None => {
                proof {
                    lemma_band_none(tables@, cb, quant@, (k + 1) as nat, count as nat);
                }
                return None;
            },
        }
        at = at + book.dim;
        k += 1;
    }
    Some(total)
}

proof fn lemma_band_grows(codes: Codes, cb: u8, quant: Seq<i32>, k: nat, more: nat)
    requires
        k <= more,
        band_bits(codes, cb, quant, k) is Some,
    ensures
        band_bits(codes, cb, quant, more) matches Some(s) ==> s.len() >= (band_bits(
            codes,
            cb,
            quant,
            k,
        )->0).len(),
    decreases more,
{
    if k < more {
        lemma_band_grows(codes, cb, quant, k, (more - 1) as nat);
    }
}

/// What is written of the first `k` tuples of a band: those before the first
/// one that the codebook cannot represent.
pub open spec fn written_tuples(codes: Codes, cb: u8, quant: Seq<i32>, k: nat) -> Seq<bool>
    decreases k,
{
    match band_bits(codes, cb, quant, k) {
        Some(s) => s,
        None => if k == 0 {
            Seq::empty()
        } else {
            written_tuples(codes, cb, quant, (k - 1) as nat)
        },
    }
}

/// What is written of a band.
pub open spec fn written_band(codes: Codes, cb: u8, quant: Seq<i32>) -> Seq<bool> {
    written_tuples(codes, cb, quant, tuples(cb, quant.len()))
}

pub(crate) proof fn lemma_written(codes: Codes, cb: u8, quant: Seq<i32>, k: nat, more: nat)
    requires
        k < more,
        band_bits(codes, cb, quant, k) is Some,
        band_bits(codes, cb, quant, k + 1) is None,
    ensures
        written_tuples(codes, cb, quant, more) == band_bits(codes, cb, quant, k)->0,
    decreases more,
{
    lemma_band_none(codes, cb, quant, k + 1, more);
    assert(written_tuples(codes, cb, quant, k) == band_bits(codes, cb, quant, k)->0);
    if k + 1 < more {
        lemma_written(codes, cb, quant, k, (more - 1) as nat);
    }
}

/// Writes a band with codebook `cb`. Returns whether the codebook could
/// represent all of it; if not, the tuples before the first one it could not
/// are written.
pub fn write_band(writer: &mut BitWriter, tables: &EncodeTables, cb: u8, quant: &[i32]) -> (r: bool)
    requires
        divides(cb, quant@.len()),
        huffman::measurable(quant@),
    ensures
        r == (whole_band(tables@, cb, quant@) is Some),
        final(writer)@ == old(writer)@ + written_band(tables@, cb, quant@),
{
    let book: Codebook = match codebook(cb) {
        Some(book) => book,
        None => {
            return true;
        },
    };
    let len: usize = quant.len();
    let count: usize = len / book.dim;
    let ghost start = writer@;
    let mut k: usize = 0;
    let mut at: usize = 0;
    assert(start + Seq::<bool>::empty() =~= start);
    while k < count
        invariant
            k <= count,
            start == old(writer)@,
            Codebook::of(cb) == Some(book),
            book.dim > 0,
            len == quant@.len(),
            count == len as int / book.dim as int,
            count == tuples(cb, quant@.len()),
            at == k * book.dim,
            huffman::measurable(quant@),
            band_bits(tables@, cb, quant@, k as nat) is Some,
            writer@ == start + band_bits(tables@, cb, quant@, k as nat)->0,
        decreases count - k,
    {
        proof {
            lemma_tuple_inside(quant@.len() as int, book.dim as int, k as int);
        }
        let part: &[i32] = slice_of(quant, at, at + book.dim);
        let done: bool = write_tuple(writer, tables, cb, part);
        if !done {
            proof {
                lemma_band_none(tables@, cb, quant@, (k + 1) as nat, count as nat);
                lemma_written(tables@, cb, quant@, k as nat, count as nat);
            }
            return false;
        }
        proof {
            let head = band_bits(tables@, cb, quant@, k as nat)->0;
            let last = huffman::tuple_bits(tables@, cb, part@)->0;
            assert((start + head) + last =~= start + (head + last));
        }
        at = at + book.dim;
        k += 1;
    }
    true
}

/// What coding a band with `cb` costs, if that can be said in 32 bits.
pub open spec fn cost_with(codes: Codes, cb: u8, quant: Seq<i32>) -> Option<u32> {
    match whole_band(codes, cb, quant) {
        Some(s) => if s.len() <= u32::MAX {
            Some(s.len() as u32)
        } else {
            None
        },
        None => None,
    }
}

/// The cheapest of the codebooks `first` to `last`, the lowest of equals.
pub open spec fn cheapest(codes: Codes, quant: Seq<i32>, first: int, last: int) -> Option<BandChoice>
    decreases last - first + 1,
{
    if last < first {
        None
    } else {
        let before = cheapest(codes, quant, first, last - 1);
        match cost_with(codes, last as u8, quant) {
            None => before,
            Some(bits) => match before {
                Some(b) if b.bits <= bits => before,
                _ => Some(BandChoice { codebook: last as u8, bits }),
            },
        }
    }
}

/// The choice for a band: nothing for a band of zeros, else the cheapest of
/// the codebooks from the first one that covers it on.
pub open spec fn choice(codes: Codes, quant: Seq<i32>) -> Option<BandChoice> {
    match huffman::book_for_peak(huffman::peak(quant, quant.len())) {
        None => Some(BandChoice { codebook: 0, bits: 0 }),
        Some(first) => cheapest(codes, quant, first as int, 11),
    }
}

/// Chooses the codebook of a band whose length is a multiple of four, the
/// longest tuple. `None` if no codebook can represent it.
pub fn choose_codebook(tables: &EncodeTables, quant: &[i32]) -> (r: Option<BandChoice>)
    requires
        huffman::measurable(quant@),
        quant@.len() % 4 == 0,
    ensures
        r == choice(tables@, quant@),
{
    let first: u8 = match minimum_codebook(quant) {
        None => {
            return Some(BandChoice { codebook: 0, bits: 0 });
        },
        Some(cb) => cb,
    };
    let mut best: Option<BandChoice> = None;
    let mut cb: u8 = first;
    while cb <= 11
        invariant
            1 <= first <= cb <= 12,
            huffman::measurable(quant@),
            quant@.len() % 4 == 0,
            best == cheapest(tables@, quant@, first as int, cb - 1),
        decreases 12 - cb,
    {
        assert(divides(cb, quant@.len()));
        if let Some(bits) = band_cost(tables, cb, quant) {
            best = match best {
                None => Some(BandChoice { codebook: cb, bits }),
                Some(b) => if b.bits <= bits {
                    Some(b)
                } else {
                    Some(BandChoice { codebook: cb, bits })
                },
            };
        }
        cb = cb + 1;
    }
    best
}

pub(crate) proof fn lemma_cheapest(codes: Codes, quant: Seq<i32>, first: int, last: int)
    requires
        0 <= first,
        last <= 11,
    ensures
        cheapest(codes, quant, first, last) matches Some(c) ==> {
            &&& first <= c.codebook <= last
            &&& cost_with(codes, c.codebook, quant) == Some(c.bits)
        },
        forall|cb: u8|
            first <= cb <= last && (#[trigger] cost_with(codes, cb, quant)) is Some
                ==> cheapest(codes, quant, first, last) is Some && (cheapest(
                codes,
                quant,
                first,
                last,
            )->0).bits <= cost_with(codes, cb, quant)->0,
    decreases last - first + 1,
{
    if last >= first {
        lemma_cheapest(codes, quant, first, last - 1);
    }
}

/// The chosen codebook represents the band at the cost that the choice names,
/// and no codebook that was considered is cheaper.
pub proof fn law_choice_is_cheapest(codes: Codes, quant: Seq<i32>, other: u8)
    requires
        huffman::book_for_peak(huffman::peak(quant, quant.len())) is Some,
        huffman::book_for_peak(huffman::peak(quant, quant.len()))->0 <= other <= 11,
    ensures
        choice(codes, quant) matches Some(c) ==> {
            &&& cost_with(codes, c.codebook, quant) == Some(c.bits)
            &&& cost_with(codes, other, quant) matches Some(bits) ==> c.bits <= bits
        },
        choice(codes, quant) is None ==> cost_with(codes, other, quant) is None,
{
    let first = huffman::book_for_peak(huffman::peak(quant, quant.len()))->0;
    lemma_cheapest(codes, quant, first as int, 11);
}

/// A band comes back from the bits it was written to, whatever follows them.
pub proof fn law_band_roundtrip(codes: Codes, cb: u8, quant: Seq<i32>, rest: Seq<bool>)
    requires
        divides(cb, quant.len()),
        decoding::is_prefix_code(codes.spectral_table(cb)),
        whole_band(codes, cb, quant) is Some,
    ensures
        decoding::read_band(
            codes,
            cb,
            Cursor::at(whole_band(codes, cb, quant)->0 + rest),
            tuples(cb, quant.len()),
        ) == (Seq::new(quant.len(), |i: int| quant[i] as int), Cursor::at(rest)),
{
    let dim = (Codebook::of(cb)->0).dim as int;
    let k = tuples(cb, quant.len());
    lemma_band_roundtrip(codes, cb, quant, k, rest);
    vstd::arithmetic::div_mod::lemma_fundamental_div_mod(quant.len() as int, dim);
    assert(k * dim == dim * k) by (nonlinear_arith);
    assert(Seq::new((k * dim) as nat, |i: int| quant[i] as int) =~= Seq::new(
        quant.len(),
        |i: int| quant[i] as int,
    ));
}

proof fn lemma_band_roundtrip(codes: Codes, cb: u8, quant: Seq<i32>, k: nat, rest: Seq<bool>)
    requires
        divides(cb, quant.len()),
        decoding::is_prefix_code(codes.spectral_table(cb)),
        k <= tuples(cb, quant.len()),
        band_bits(codes, cb, quant, k) is Some,
    ensures
        decoding::read_band(codes, cb, Cursor::at(band_bits(codes, cb, quant, k)->0 + rest), k) == (
            Seq::new((k * (Codebook::of(cb)->0).dim) as nat, |i: int| quant[i] as int),
            Cursor::at(rest),
        ),
    decreases k,
{
    let dim = (Codebook::of(cb)->0).dim as int;
    let all = band_bits(codes, cb, quant, k)->0;
    if k == 0 {
        assert(all + rest =~= rest);
        assert(0 * dim == 0);
        assert(Seq::new(0, |i: int| quant[i] as int) =~= Seq::<int>::empty());
    } else {
        let head = band_bits(codes, cb, quant, (k - 1) as nat)->0;
        let t = tuple(quant, dim, k - 1);
        let last = huffman::tuple_bits(codes, cb, t)->0;
        assert((head + last) + rest =~= head + (last + rest));
        lemma_band_roundtrip(codes, cb, quant, (k - 1) as nat, last + rest);
        lemma_tuple_inside(quant.len() as int, dim, k - 1);
        decoding::law_tuple_roundtrip(codes, cb, t, rest);
        assert(Seq::new(((k - 1) * dim) as nat, |i: int| quant[i] as int) + Seq::new(
            t.len(),
            |i: int| t[i] as int,
        ) =~= Seq::new((k * dim) as nat, |i: int| quant[i] as int));
    }
}

} // verus!
