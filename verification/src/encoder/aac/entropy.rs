//! What the bits of a band are, and which codebook they are written with.

use crate::bits;
use crate::encoder::aac::huffman;
use crate::encoder::aac::huffman::{Codebook, Codes, Codeword};
use crate::encoder::aac::quant;
use vstd::arithmetic::power2::*;
use vstd::prelude::*;

verus! {

/// The size of a value, without its sign.
pub open spec fn size(v: i32) -> int {
    if v >= 0 {
        v as int
    } else {
        0 - v
    }
}

/// The sign of a value, where it has one.
pub open spec fn sign(v: i32) -> Seq<bool> {
    if v == 0 {
        Seq::empty()
    } else {
        seq![v < 0]
    }
}

/// What stands at a symbol of a codebook, if anything does.
pub open spec fn at_symbol(codes: Codes, cb: u8, symbol: int) -> Option<Seq<bool>> {
    let table = codes.spectral[cb as int];
    if 0 <= symbol < table.len() && table[symbol].len > 0 {
        Some(bits::uint(table[symbol].bits as nat, table[symbol].len as nat))
    } else {
        None
    }
}

/// A symbol's bits and what follows them.
pub open spec fn with_more(word: Option<Seq<bool>>, more: Seq<bool>) -> Option<Seq<bool>> {
    match word {
        Some(w) => Some(w + more),
        None => None,
    }
}

/// Four values between minus one and one are the digits of a symbol to base
/// three, the first value the highest, each raised by one. Four others are not
/// in these codebooks.
pub proof fn law_four_signed_values(codes: Codes, cb: u8, a: i32, b: i32, c: i32, d: i32)
    requires
        codes.spectral.len() == 12,
        cb == 1 || cb == 2,
    ensures
        huffman::tuple_bits(codes, cb, seq![a, b, c, d]) == if -1 <= a <= 1 && -1 <= b <= 1 && -1
            <= c <= 1 && -1 <= d <= 1 {
            at_symbol(codes, cb, 27 * a + 9 * b + 3 * c + d + 40)
        } else {
            None
        },
{
    let book = Codebook::of(cb)->0;
    reveal_with_fuel(huffman::tuple_symbol, 5);
    let t = seq![a, b, c, d];
    assert(t.len() == 4 && t[0] == a && t[1] == b && t[2] == c && t[3] == d);
    if -1 <= a <= 1 && -1 <= b <= 1 && -1 <= c <= 1 && -1 <= d <= 1 {
        assert(book.huff_mode == 3);
        assert(huffman::tuple_symbol(cb, book, t, 1) == Some(a + 1));
        assert(huffman::tuple_symbol(cb, book, t, 2) == Some(3 * (a + 1) + b + 1));
        assert(huffman::tuple_symbol(cb, book, t, 3) == Some(9 * (a + 1) + 3 * (b + 1) + c + 1));
        assert(huffman::tuple_symbol(cb, book, t, 4) == Some(27 * a + 9 * b + 3 * c + d + 40));
    }
}

/// Four values of at most two are the digits of a symbol to base three; the
/// signs of those that are not zero follow it.
pub proof fn law_four_unsigned_values(codes: Codes, cb: u8, a: i32, b: i32, c: i32, d: i32)
    requires
        codes.spectral.len() == 12,
        cb == 3 || cb == 4,
    ensures
        huffman::tuple_bits(codes, cb, seq![a, b, c, d]) == if size(a) <= 2 && size(b) <= 2 && size(
            c,
        ) <= 2 && size(d) <= 2 {
            with_more(
                at_symbol(codes, cb, 27 * size(a) + 9 * size(b) + 3 * size(c) + size(d)),
                sign(a) + sign(b) + sign(c) + sign(d),
            )
        } else {
            None
        },
{
    let book = Codebook::of(cb)->0;
    reveal_with_fuel(huffman::tuple_symbol, 5);
    reveal_with_fuel(huffman::tuple_signs, 5);
    reveal_with_fuel(huffman::tuple_escapes, 5);
    let t = seq![a, b, c, d];
    assert(t.len() == 4 && t[0] == a && t[1] == b && t[2] == c && t[3] == d);
    if size(a) <= 2 && size(b) <= 2 && size(c) <= 2 && size(d) <= 2 {
        assert(book.huff_mode == 3);
        assert(huffman::tuple_symbol(cb, book, t, 1) == Some(size(a)));
        assert(huffman::tuple_symbol(cb, book, t, 2) == Some(3 * size(a) + size(b)));
        assert(huffman::tuple_symbol(cb, book, t, 3) == Some(9 * size(a) + 3 * size(b) + size(c)));
    }
    assert(huffman::tuple_signs(t, 1) =~= sign(a));
    assert(huffman::tuple_signs(t, 2) =~= sign(a) + sign(b));
    assert(huffman::tuple_signs(t, 3) =~= sign(a) + sign(b) + sign(c));
    assert(huffman::tuple_signs(t, 4) =~= sign(a) + sign(b) + sign(c) + sign(d));
    assert(huffman::tuple_escapes(cb, book, t, 4) =~= Seq::<bool>::empty());
    if let Some(w) = huffman::tuple_bits(codes, cb, t) {
        let cw = codes.spectral_word(
            cb,
            27 * size(a) + 9 * size(b) + 3 * size(c) + size(d),
        )->0;
        assert((cw.word() + huffman::tuple_signs(t, 4)) + Seq::<bool>::empty() =~= cw.word()
            + huffman::tuple_signs(t, 4));
    }
}

/// Two values between minus four and four are the digits of a symbol to base
/// nine, each raised by four.
pub proof fn law_two_signed_values(codes: Codes, cb: u8, a: i32, b: i32)
    requires
        codes.spectral.len() == 12,
        cb == 5 || cb == 6,
    ensures
        huffman::tuple_bits(codes, cb, seq![a, b]) == if -4 <= a <= 4 && -4 <= b <= 4 {
            at_symbol(codes, cb, 9 * a + b + 40)
        } else {
            None
        },
{
    let book = Codebook::of(cb)->0;
    reveal_with_fuel(huffman::tuple_symbol, 3);
    let t = seq![a, b];
    assert(t.len() == 2 && t[0] == a && t[1] == b);
}

/// Two values of at most seven, or of at most twelve, are the digits of a
/// symbol to base eight or thirteen; the signs of those that are not zero
/// follow it.
pub proof fn law_two_unsigned_values(codes: Codes, cb: u8, a: i32, b: i32)
    requires
        codes.spectral.len() == 12,
        7 <= cb <= 10,
    ensures
        ({
            let top = if cb <= 8 { 7int } else { 12 };
            huffman::tuple_bits(codes, cb, seq![a, b]) == if size(a) <= top && size(b) <= top {
                with_more(at_symbol(codes, cb, (top + 1) * size(a) + size(b)), sign(a) + sign(b))
            } else {
                None
            }
        }),
{
    let book = Codebook::of(cb)->0;
    reveal_with_fuel(huffman::tuple_symbol, 3);
    reveal_with_fuel(huffman::tuple_signs, 3);
    reveal_with_fuel(huffman::tuple_escapes, 3);
    let t = seq![a, b];
    let top = if cb <= 8 { 7int } else { 12 };
    assert(t.len() == 2 && t[0] == a && t[1] == b);
    assert(huffman::tuple_signs(t, 2) =~= sign(a) + sign(b));
    assert(huffman::tuple_escapes(cb, book, t, 2) =~= Seq::<bool>::empty());
    assert((top + 1) * size(a) == size(a) * book.huff_mode) by (nonlinear_arith)
        requires
            top + 1 == book.huff_mode,
    ;
    if let Some(w) = huffman::tuple_bits(codes, cb, t) {
        let cw = codes.spectral_word(cb, (top + 1) * size(a) + size(b))->0;
        assert((cw.word() + huffman::tuple_signs(t, 2)) + Seq::<bool>::empty() =~= cw.word()
            + huffman::tuple_signs(t, 2));
    }
}

/// The tail of a value from sixteen on: as many ones as its size has bits
/// above five, a zero, and the size without its highest bit.
pub open spec fn is_tail(v: i32, tail: Seq<bool>) -> bool {
    if size(v) < 16 {
        tail.len() == 0
    } else {
        exists|n: nat|
            {
                &&& 4 <= n <= 20
                &&& #[trigger] pow2(n) <= size(v) < 2 * pow2(n)
                &&& tail.len() == 2 * n - 3
                &&& forall|i: int| 0 <= i < n - 4 ==> #[trigger] tail[i]
                &&& !tail[n - 4]
                &&& bits::value(tail.skip(n - 3)) == size(v) - pow2(n)
            }
    }
}

proof fn lemma_size(v: i32, n: nat)
    requires
        4 <= n,
        16 <= size(v) < 0x20_0000,
        size(v) >= pow2(n),
    ensures
        huffman::escape_size(huffman::magnitude(v), n) is Some,
        ({
            let k = huffman::escape_size(huffman::magnitude(v), n)->0;
            n <= k <= 20 && pow2(k) <= size(v) < 2 * pow2(k)
        }),
    decreases 21 - n,
{
    lemma2_to64();
    lemma_pow2_unfold(n + 1);
    if n > 20 {
        if n > 21 {
            lemma_pow2_strictly_increases(21, n);
        }
    } else if huffman::magnitude(v) >= pow2(n + 1) {
        lemma_size(v, n + 1);
    }
}

proof fn lemma_tail(v: i32)
    requires
        size(v) < 0x20_0000,
        size(v) >= 16,
    ensures
        huffman::escape_size(huffman::magnitude(v), 4) is Some,
        is_tail(
            v,
            huffman::escape_word(
                huffman::magnitude(v),
                huffman::escape_size(huffman::magnitude(v), 4)->0,
            ),
        ),
{
    lemma2_to64();
    lemma_size(v, 4);
    let mag = huffman::magnitude(v);
    let n = huffman::escape_size(mag, 4)->0;
    let low = (mag - pow2(n)) as nat;
    let word = huffman::escape_word(mag, n);
    let tail = bits::uint(low, n);
    bits::lemma_uint_len(low, n);
    bits::lemma_value_of_uint_exact(low, n);
    assert(word.skip(n - 3) =~= tail);
    assert(pow2(n) <= size(v) < 2 * pow2(n));
}

/// Two values of the last codebook are the digits of a symbol to base
/// seventeen, those from sixteen on as sixteen. The signs of those that are
/// not zero follow it, then what the digits leave out of the values, the first
/// value's first.
pub proof fn law_two_escaped_values(codes: Codes, a: i32, b: i32)
    requires
        codes.spectral.len() == 12,
        size(a) < 0x20_0000,
        size(b) < 0x20_0000,
    ensures
        ({
            let x = if size(a) < 16 { size(a) } else { 16 };
            let y = if size(b) < 16 { size(b) } else { 16 };
            let word = at_symbol(codes, 11, 17 * x + y);
            match huffman::tuple_bits(codes, 11, seq![a, b]) {
                Some(s) => word is Some && exists|first: Seq<bool>, second: Seq<bool>|
                    #![trigger is_tail(a, first), is_tail(b, second)]
                    {
                        &&& is_tail(a, first)
                        &&& is_tail(b, second)
                        &&& s == word->0 + sign(a) + sign(b) + first + second
                    },
                None => word is None,
            }
        }),
{
    let book = Codebook::of(11)->0;
    reveal_with_fuel(huffman::tuple_symbol, 3);
    reveal_with_fuel(huffman::tuple_signs, 3);
    reveal_with_fuel(huffman::tuple_escapes, 3);
    let t = seq![a, b];
    assert(t.len() == 2 && t[0] == a && t[1] == b);
    assert(huffman::tuple_signs(t, 2) =~= sign(a) + sign(b));
    let x = if size(a) < 16 { size(a) } else { 16 };
    let y = if size(b) < 16 { size(b) } else { 16 };
    let first = if size(a) < 16 {
        Seq::<bool>::empty()
    } else {
        huffman::escape_word(
            huffman::magnitude(a),
            huffman::escape_size(huffman::magnitude(a), 4)->0,
        )
    };
    let second = if size(b) < 16 {
        Seq::<bool>::empty()
    } else {
        huffman::escape_word(
            huffman::magnitude(b),
            huffman::escape_size(huffman::magnitude(b), 4)->0,
        )
    };
    if size(a) >= 16 {
        lemma_tail(a);
    }
    if size(b) >= 16 {
        lemma_tail(b);
    }
    assert(is_tail(a, first) && is_tail(b, second));
    assert(huffman::tuple_escapes(11, book, t, 2) =~= first + second);
    if let Some(s) = huffman::tuple_bits(codes, 11, t) {
        let cw = codes.spectral_word(11, 17 * x + y)->0;
        assert((cw.word() + huffman::tuple_signs(t, 2)) + (first + second) =~= cw.word() + sign(a)
            + sign(b) + first + second);
    }
}

/// Codebooks one to four have a symbol for each four digits, those from five
/// on one for each two.
pub proof fn law_codebook_sizes(cb: u8)
    requires
        1 <= cb <= 11,
    ensures
        ({
            let book = Codebook::of(cb)->0;
            &&& book.dim == if cb <= 4 { 4int } else { 2 }
            &&& book.symbols() == if cb <= 6 {
                81nat
            } else if cb <= 8 {
                64
            } else if cb <= 10 {
                169
            } else {
                289
            }
        }),
{
}

proof fn lemma_join(codes: Codes, cb: u8, a: Seq<i32>, b: Seq<i32>, k: nat)
    requires
        quant::divides(cb, a.len()),
        quant::divides(cb, b.len()),
        k <= quant::tuples(cb, b.len()),
    ensures
        ({
            let n = quant::tuples(cb, a.len());
            let all = quant::band_bits(codes, cb, a + b, n + k);
            match (quant::whole_band(codes, cb, a), quant::band_bits(codes, cb, b, k)) {
                (Some(x), Some(y)) => all == Some(x + y),
                _ => all is None,
            }
        }),
    decreases k,
{
    let n = quant::tuples(cb, a.len());
    let dim = (Codebook::of(cb)->0).dim as int;
    assert(a.len() == n * dim && b.len() == quant::tuples(cb, b.len()) * dim) by {
        vstd::arithmetic::div_mod::lemma_fundamental_div_mod(a.len() as int, dim);
        vstd::arithmetic::div_mod::lemma_fundamental_div_mod(b.len() as int, dim);
        vstd::arithmetic::mul::lemma_mul_is_commutative(dim, n as int);
        vstd::arithmetic::mul::lemma_mul_is_commutative(
            dim,
            quant::tuples(cb, b.len()) as int,
        );
    }
    if k == 0 {
        lemma_same_start(codes, cb, a, b, n);
        if let Some(x) = quant::whole_band(codes, cb, a) {
            assert(x + Seq::<bool>::empty() =~= x);
        }
    } else {
        lemma_join(codes, cb, a, b, (k - 1) as nat);
        assert((n + k - 1) * dim == n * dim + (k - 1) * dim) by (nonlinear_arith);
        assert(0 <= (k - 1) * dim && (k - 1) * dim + dim <= quant::tuples(cb, b.len()) * dim)
            by (nonlinear_arith)
            requires
                1 <= k <= quant::tuples(cb, b.len()),
                dim > 0,
        ;
        assert(quant::tuple(a + b, dim, n + k - 1) =~= quant::tuple(b, dim, k - 1));
        if let (Some(x), Some(y)) = (
            quant::whole_band(codes, cb, a),
            quant::band_bits(codes, cb, b, (k - 1) as nat),
        ) {
            if let Some(z) = huffman::tuple_bits(codes, cb, quant::tuple(b, dim, k - 1)) {
                assert((x + y) + z =~= x + (y + z));
            }
        }
        assert((n + k - 1) as nat == n + (k - 1) as nat);
    }
}

proof fn lemma_same_start(codes: Codes, cb: u8, a: Seq<i32>, b: Seq<i32>, k: nat)
    requires
        quant::divides(cb, a.len()),
        k <= quant::tuples(cb, a.len()),
    ensures
        quant::band_bits(codes, cb, a + b, k) == quant::band_bits(codes, cb, a, k),
    decreases k,
{
    if k > 0 {
        lemma_same_start(codes, cb, a, b, (k - 1) as nat);
        let dim = (Codebook::of(cb)->0).dim as int;
        let n = quant::tuples(cb, a.len());
        vstd::arithmetic::div_mod::lemma_fundamental_div_mod(a.len() as int, dim);
        assert(0 <= (k - 1) * dim && (k - 1) * dim + dim <= dim * n) by (nonlinear_arith)
            requires
                1 <= k <= n,
                dim > 0,
        ;
        assert(quant::tuple(a + b, dim, k - 1) =~= quant::tuple(a, dim, k - 1));
    }
}

/// The bits of a band that is one tuple are the tuple's.
pub proof fn law_band_of_one_tuple(codes: Codes, cb: u8, values: Seq<i32>)
    requires
        Codebook::of(cb) is Some,
        values.len() == (Codebook::of(cb)->0).dim,
    ensures
        quant::whole_band(codes, cb, values) == huffman::tuple_bits(codes, cb, values),
{
    reveal_with_fuel(quant::band_bits, 2);
    let dim = (Codebook::of(cb)->0).dim as int;
    assert(quant::tuple(values, dim, 0) =~= values);
    if let Some(s) = huffman::tuple_bits(codes, cb, values) {
        assert(Seq::<bool>::empty() + s =~= s);
    }
}

/// The bits of two bands are the bits of the first and then those of the
/// second, and neither has any where the other cannot be represented.
pub proof fn law_bands_in_turn(codes: Codes, cb: u8, a: Seq<i32>, b: Seq<i32>)
    requires
        quant::divides(cb, a.len()),
        quant::divides(cb, b.len()),
    ensures
        match (quant::whole_band(codes, cb, a), quant::whole_band(codes, cb, b)) {
            (Some(x), Some(y)) => quant::whole_band(codes, cb, a + b) == Some(x + y),
            _ => quant::whole_band(codes, cb, a + b) is None,
        },
{
    let n = quant::tuples(cb, a.len());
    let k = quant::tuples(cb, b.len());
    let dim = (Codebook::of(cb)->0).dim as int;
    lemma_join(codes, cb, a, b, k);
    assert(dim == 2 || dim == 4);
    assert((a + b).len() == a.len() + b.len());
    assert(quant::tuples(cb, (a + b).len()) == n + k);
}

/// What is written of a band that cannot be represented is what stands before
/// the first tuple that cannot.
pub proof fn law_written_until_it_fails(
    codes: Codes,
    cb: u8,
    a: Seq<i32>,
    t: Seq<i32>,
    b: Seq<i32>,
)
    requires
        quant::divides(cb, a.len()),
        quant::divides(cb, b.len()),
        t.len() == (Codebook::of(cb)->0).dim,
        quant::whole_band(codes, cb, a) is Some,
        huffman::tuple_bits(codes, cb, t) is None,
    ensures
        quant::written_band(codes, cb, a) == quant::whole_band(codes, cb, a)->0,
        quant::written_band(codes, cb, a + t + b) == quant::whole_band(codes, cb, a)->0,
{
    let dim = (Codebook::of(cb)->0).dim as int;
    let n = quant::tuples(cb, a.len());
    assert(dim == 2 || dim == 4);
    law_band_of_one_tuple(codes, cb, t);
    law_bands_in_turn(codes, cb, a, t);
    lemma_same_start(codes, cb, a, t + b, n);
    assert(a + t + b =~= a + (t + b));
    lemma_same_start(codes, cb, a + t, b, n + 1);
    assert(quant::tuples(cb, (a + t).len()) == n + 1);
    quant::lemma_written(
        codes,
        cb,
        a + t + b,
        n,
        quant::tuples(cb, (a + t + b).len()),
    );
}

proof fn lemma_tuple_sizes(codes: Codes, cb: u8, values: Seq<i32>, k: nat, i: int)
    requires
        1 <= cb <= 10,
        0 <= i < k <= values.len(),
        huffman::tuple_symbol(cb, Codebook::of(cb)->0, values, k) is Some,
    ensures
        huffman::magnitude(values[i]) <= (Codebook::of(cb)->0).lav,
    decreases k,
{
    if i < k - 1 {
        lemma_tuple_sizes(codes, cb, values, (k - 1) as nat, i);
    }
}

proof fn lemma_band_sizes(codes: Codes, cb: u8, values: Seq<i32>, k: nat, i: int)
    requires
        1 <= cb <= 10,
        k <= quant::tuples(cb, values.len()),
        quant::band_bits(codes, cb, values, k) is Some,
        0 <= i < k * (Codebook::of(cb)->0).dim,
    ensures
        huffman::magnitude(values[i]) <= (Codebook::of(cb)->0).lav,
    decreases k,
{
    let dim = (Codebook::of(cb)->0).dim as int;
    assert(dim == 2 || dim == 4);
    if k > 0 {
        assert((k - 1) * dim + dim == k * dim && 0 <= (k - 1) * dim) by (nonlinear_arith)
            requires
                k >= 1,
                dim > 0,
        ;
        assert(k * dim <= values.len()) by {
            vstd::arithmetic::div_mod::lemma_fundamental_div_mod(values.len() as int, dim);
            assert(k * dim <= dim * quant::tuples(cb, values.len())) by (nonlinear_arith)
                requires
                    k <= quant::tuples(cb, values.len()),
                    dim > 0,
            ;
        }
        if i < (k - 1) * dim {
            lemma_band_sizes(codes, cb, values, (k - 1) as nat, i);
        } else {
            let t = quant::tuple(values, dim, k - 1);
            lemma_tuple_sizes(codes, cb, t, t.len(), i - (k - 1) * dim);
        }
    } else {
        assert(k * dim == 0) by (nonlinear_arith)
            requires
                k == 0,
        ;
    }
}

proof fn lemma_lowest_of_equals(codes: Codes, quant: Seq<i32>, first: int, last: int, other: u8)
    requires
        0 <= first,
        last <= 11,
    ensures
        quant::cheapest(codes, quant, first, last) matches Some(c) ==> {
            &&& first <= c.codebook <= last
            &&& first <= other < c.codebook && quant::cost_with(codes, other, quant) is Some
                ==> quant::cost_with(codes, other, quant)->0 > c.bits
        },
        quant::cheapest(codes, quant, first, last) is None && first <= other <= last
            ==> quant::cost_with(codes, other, quant) is None,
    decreases last - first + 1,
{
    if last >= first {
        lemma_lowest_of_equals(codes, quant, first, last - 1, other);
        quant::lemma_cheapest(codes, quant, first, last - 1);
    }
}

/// A band of zeros costs nothing and has no codebook; any other band has the
/// cheapest of all codebooks that can represent it, and of equally cheap ones
/// the first.
pub proof fn law_no_codebook_is_cheaper(codes: Codes, band: Seq<i32>, other: u8)
    requires
        band.len() % 4 == 0,
        1 <= other <= 11,
    ensures
        (forall|i: int| 0 <= i < band.len() ==> band[i] == 0) ==> quant::choice(codes, band) == Some(
            quant::BandChoice { codebook: 0, bits: 0 },
        ),
        !(forall|i: int| 0 <= i < band.len() ==> band[i] == 0) ==> match (
            quant::choice(codes, band),
            quant::whole_band(codes, other, band),
        ) {
            (Some(c), Some(s)) => {
                &&& 1 <= c.codebook <= 11
                &&& c.bits <= s.len()
                &&& other < c.codebook ==> c.bits < s.len()
            },
            (None, Some(s)) => s.len() > u32::MAX,
            (Some(c), None) => 1 <= c.codebook <= 11 && c.codebook != other,
            (None, None) => true,
        },
{
    let top = huffman::peak(band, band.len());
    if forall|i: int| 0 <= i < band.len() ==> band[i] == 0 {
        huffman::lemma_peak_zero(band, band.len());
    } else {
        let i = choose|i: int| 0 <= i < band.len() && band[i] != 0;
        huffman::lemma_peak(band, band.len(), i);
        let first = huffman::book_for_peak(top)->0;
        lemma_lowest_of_equals(codes, band, first as int, 11, other);
        quant::lemma_cheapest(codes, band, first as int, 11);
        if other < first && quant::whole_band(codes, other, band) is Some {
            let at = lemma_peak_is_reached(band, band.len());
            let dim = (Codebook::of(other)->0).dim as int;
            let n = quant::tuples(other, band.len());
            assert(dim == 2 || dim == 4);
            vstd::arithmetic::div_mod::lemma_fundamental_div_mod(band.len() as int, dim);
            vstd::arithmetic::mul::lemma_mul_is_commutative(dim, n as int);
            lemma_band_sizes(codes, other, band, n, at);
            assert(false);
        }
    }
}

proof fn lemma_peak_is_reached(band: Seq<i32>, k: nat) -> (i: int)
    requires
        k <= band.len(),
        huffman::peak(band, k) > 0,
    ensures
        0 <= i < k,
        huffman::magnitude(band[i]) == huffman::peak(band, k),
    decreases k,
{
    let head = huffman::peak(band, (k - 1) as nat);
    if k > 0 && huffman::magnitude(band[k - 1]) > head {
        k - 1
    } else {
        lemma_peak_is_reached(band, (k - 1) as nat)
    }
}

/// The delta of a scalefactor stands at the delta's distance from the middle
/// of the table.
pub proof fn law_delta_words(codes: Codes, delta: int)
    requires
        codes.scalefactor.len() == 121,
    ensures
        codes.delta_word(delta) matches Some(w) ==> -60 <= delta <= 60 && w
            == codes.scalefactor[60 + delta] && w.len > 0,
        -60 <= delta <= 60 && codes.scalefactor[60 + delta].len > 0 ==> codes.delta_word(
            delta,
        ) is Some,
{
}

/// The largest values that the codebooks take without an escape.
pub proof fn law_largest_values(cb: u8)
    ensures
        Codebook::of(cb) is Some <==> 1 <= cb <= 11,
        Codebook::of(cb) matches Some(book) ==> book.lav == if cb <= 2 {
            1int
        } else if cb <= 4 {
            2
        } else if cb <= 6 {
            4
        } else if cb <= 8 {
            7
        } else if cb <= 10 {
            12
        } else {
            16
        },
{
}

} // verus!
