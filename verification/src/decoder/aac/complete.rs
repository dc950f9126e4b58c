//! Complete codes.
//!
//! A prefix code is complete if its words leave no bit string out: the shares
//! of all strings that start with one of them add up to the whole.

use crate::bits;
use crate::bitstream::Cursor;
use crate::decoder::aac::huffman as decoding;
use crate::decoder::aac::huffman::MAX_CODE_LEN;
use crate::encoder::aac::huffman::Codeword;
use vstd::arithmetic::power2::*;
use vstd::prelude::*;
use vstd::set_lib;

verus! {

/// Of the strings of [`MAX_CODE_LEN`] bits, how many start with a word of
/// `len` bits.
pub open spec fn share(len: int) -> nat {
    pow2((MAX_CODE_LEN - len) as nat)
}

/// How many of those strings the first `n` words of a table account for.
pub open spec fn shares(table: Seq<Codeword>, n: nat) -> nat
    decreases n,
{
    if n == 0 {
        0
    } else {
        shares(table, (n - 1) as nat) + if table[n - 1].len > 0 {
            share(table[n - 1].len as int)
        } else {
            0
        }
    }
}

/// A prefix code whose words account for all strings.
pub open spec fn is_complete_code(table: Seq<Codeword>) -> bool {
    &&& decoding::is_prefix_code(table)
    &&& shares(table, table.len()) == pow2(MAX_CODE_LEN as nat)
}

/// The numbers of the strings that start with a word.
spec fn covered(word: Codeword) -> Set<int> {
    let size = share(word.len as int) as int;
    set_lib::set_int_range(word.bits * size, word.bits * size + size)
}

/// The numbers of the strings that start with one of the first `n` words.
spec fn covered_by(table: Seq<Codeword>, n: nat) -> Set<int>
    decreases n,
{
    if n == 0 {
        Set::empty()
    } else if table[n - 1].len > 0 {
        covered_by(table, (n - 1) as nat) + covered(table[n - 1])
    } else {
        covered_by(table, (n - 1) as nat)
    }
}

/// A string starts with a word exactly if its first bits are the word.
proof fn lemma_covered(word: Codeword, x: int)
    requires
        0 < word.len <= MAX_CODE_LEN,
        0 <= x,
    ensures
        covered(word).contains(x) <==> x / share(word.len as int) as int == word.bits,
{
    let size = share(word.len as int) as int;
    lemma_pow2_pos((MAX_CODE_LEN - word.len) as nat);
    vstd::arithmetic::div_mod::lemma_fundamental_div_mod(x, size);
    vstd::arithmetic::div_mod::lemma_mod_bound(x, size);
    let b = word.bits as int;
    let q = x / size;
    let r = x % size;
    assert(size * q == q * size) by (nonlinear_arith);
    if q == b {
        assert(b * size <= x < b * size + size);
    }
    if b * size <= x < b * size + size {
        assert(q == b) by (nonlinear_arith)
            requires
                x == q * size + r,
                0 <= r < size,
                b * size <= x < b * size + size,
        ;
    }
}

/// No string starts with two words of a prefix code.
proof fn lemma_disjoint(table: Seq<Codeword>, i: int, j: int, x: int)
    requires
        decoding::is_prefix_code(table),
        0 <= i < table.len(),
        0 <= j < table.len(),
        i != j,
        0 < table[i].len <= table[j].len,
        0 <= x,
    ensures
        !(covered(table[i]).contains(x) && covered(table[j]).contains(x)),
{
    let li = table[i].len as int;
    let lj = table[j].len as int;
    lemma_covered(table[i], x);
    lemma_covered(table[j], x);
    let small = share(lj);
    let step = pow2((lj - li) as nat);
    lemma_pow2_pos((lj - li) as nat);
    lemma_pow2_pos((MAX_CODE_LEN - lj) as nat);
    lemma_pow2_adds((MAX_CODE_LEN - lj) as nat, (lj - li) as nat);
    assert(share(li) == small * step);
    vstd::arithmetic::div_mod::lemma_div_denominator(x, small as int, step as int);
    if covered(table[i]).contains(x) && covered(table[j]).contains(x) {
        assert(table[j].bits as int / step as int == table[i].bits);
    }
}

proof fn lemma_covered_by(table: Seq<Codeword>, n: nat)
    requires
        decoding::is_prefix_code(table),
        n <= table.len(),
    ensures
        covered_by(table, n).finite(),
        covered_by(table, n).len() == shares(table, n),
        covered_by(table, n).subset_of(set_lib::set_int_range(0, pow2(MAX_CODE_LEN as nat) as int)),
        forall|x: int| #[trigger]
            covered_by(table, n).contains(x) ==> exists|i: int|
                0 <= i < n && (#[trigger] table[i]).len > 0 && covered(table[i]).contains(x),
    decreases n,
{
    if n > 0 {
        let before = covered_by(table, (n - 1) as nat);
        lemma_covered_by(table, (n - 1) as nat);
        let word = table[n - 1];
        if word.len > 0 {
            let size = share(word.len as int) as int;
            let here = covered(word);
            lemma_pow2_pos((MAX_CODE_LEN - word.len) as nat);
            set_lib::lemma_int_range(word.bits * size, word.bits * size + size);
            lemma_pow2_adds((MAX_CODE_LEN - word.len) as nat, word.len as nat);
            let all = pow2(MAX_CODE_LEN as nat) as int;
            let b = word.bits as int;
            let most = pow2(word.len as nat) as int;
            assert(0 <= b * size && b * size + size <= all) by (nonlinear_arith)
                requires
                    0 <= b,
                    b + 1 <= most,
                    size >= 1,
                    size * most == all,
            ;
            assert(before.disjoint(here)) by {
                assert forall|x: int| !(before.contains(x) && here.contains(x)) by {
                    if before.contains(x) && here.contains(x) {
                        let i = choose|i: int|
                            0 <= i < n - 1 && (#[trigger] table[i]).len > 0 && covered(
                                table[i],
                            ).contains(x);
                        if table[i].len <= word.len {
                            lemma_disjoint(table, i, n - 1, x);
                        } else {
                            lemma_disjoint(table, n - 1, i, x);
                        }
                    }
                }
            }
            set_lib::lemma_set_disjoint_lens(before, here);
            assert forall|x: int| #[trigger] covered_by(table, n).contains(x) implies exists|i: int|
                0 <= i < n && (#[trigger] table[i]).len > 0 && covered(table[i]).contains(x) by {
                if here.contains(x) {
                    assert(table[n - 1].len > 0);
                }
            }
        }
    }
}

/// The first `k` bits of a string, as a number, are what is left of its number
/// when the others are taken off.
proof fn lemma_first_bits(s: Seq<bool>, k: int)
    requires
        0 <= k <= MAX_CODE_LEN <= s.len(),
    ensures
        bits::value(s.take(MAX_CODE_LEN as int)) as int / share(k) as int == bits::value(s.take(k)),
{
    let a = s.take(k);
    let b = s.subrange(k, MAX_CODE_LEN as int);
    assert(s.take(MAX_CODE_LEN as int) =~= a + b);
    bits::lemma_value_concat(a, b);
    bits::lemma_value_bound(b);
    let q = bits::value(a) as int;
    let r = bits::value(b) as int;
    vstd::arithmetic::div_mod::lemma_fundamental_div_mod_converse(
        q * share(k) as int + r,
        share(k) as int,
        q,
        r,
    );
}

/// Reading goes on until the word at the start of the string is complete.
proof fn lemma_finds(table: Seq<Codeword>, cb: u8, s: Seq<bool>, symbol: int, k: nat)
    requires
        decoding::is_prefix_code(table),
        MAX_CODE_LEN <= s.len(),
        0 <= symbol < table.len(),
        k < table[symbol].len <= MAX_CODE_LEN,
        table[symbol].bits == bits::value(s.take(table[symbol].len as int)),
    ensures
        decoding::read_code(table, cb, Cursor::at(s.skip(k as int)), bits::value(s.take(k as int)), k)
            .1.fault is None,
    decreases MAX_CODE_LEN - k,
{
    reveal(Cursor::flag);
    let bit = s[k as int];
    assert(s.skip(k as int)[0] == bit);
    assert(s.skip(k as int).skip(1) =~= s.skip(k as int + 1));
    assert(s.take(k as int + 1) =~= s.take(k as int).push(bit));
    bits::lemma_value_push(s.take(k as int), bit);
    let word = bits::value(s.take(k as int + 1)) as int;
    decoding::lemma_lookup(table, word, k as int + 1, 0);
    if decoding::lookup(table, word, k as int + 1, 0) is None {
        assert(!(table[symbol].len == k + 1 && table[symbol].bits == word));
        lemma_finds(table, cb, s, symbol, k + 1);
    }
}

/// With a complete code, whatever the bits are, they start with a word: no
/// string that is long enough is refused.
pub proof fn law_complete_codes_read_anything(table: Seq<Codeword>, cb: u8, s: Seq<bool>)
    requires
        is_complete_code(table),
        s.len() >= MAX_CODE_LEN,
    ensures
        decoding::read_code(table, cb, Cursor::at(s), 0, 0).1.fault is None,
{
    let all = set_lib::set_int_range(0, pow2(MAX_CODE_LEN as nat) as int);
    let x = bits::value(s.take(MAX_CODE_LEN as int)) as int;
    lemma_covered_by(table, table.len());
    lemma_pow2_pos(MAX_CODE_LEN as nat);
    set_lib::lemma_int_range(0, pow2(MAX_CODE_LEN as nat) as int);
    set_lib::lemma_subset_equality(covered_by(table, table.len()), all);
    bits::lemma_value_bound(s.take(MAX_CODE_LEN as int));
    assert(all.contains(x));
    assert(covered_by(table, table.len()).contains(x));
    let i = choose|i: int|
        0 <= i < table.len() && (#[trigger] table[i]).len > 0 && covered(table[i]).contains(x);
    lemma_covered(table[i], x);
    lemma_first_bits(s, table[i].len as int);
    bits::lemma_empty();
    assert(s.take(0) =~= Seq::<bool>::empty());
    assert(s.skip(0) =~= s);
    lemma_finds(table, cb, s, i, 0);
}

} // verus!
