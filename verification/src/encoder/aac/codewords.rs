//! Which codewords the ROM tables of a codebook describe.

use crate::encoder::aac::huffman;
use crate::encoder::aac::huffman::Codeword;
use vstd::prelude::*;

verus! {

/// The symbols of the entries up to `last` are all different.
pub open spec fn have_own_symbols(input: Seq<u16>, last: int) -> bool {
    forall|a: int, b: int|
        0 <= a < b <= last ==> #[trigger] input[a] as int / 32 != #[trigger] input[b] as int / 32
}

proof fn lemma_kept(
    table: Seq<Codeword>,
    input: Seq<u16>,
    offset: int,
    word: int,
    len: int,
    d: int,
    symbol: int,
)
    requires
        0 <= d,
        offset + 1 < input.len(),
        0 <= symbol < table.len(),
        forall|j: int|
            d <= j <= offset ==> #[trigger] input[offset + 1 - j] as int / 32 != symbol,
    ensures
        huffman::with_class(table, input, offset, word, len, d).len() == table.len(),
        huffman::with_class(table, input, offset, word, len, d)[symbol] == table[symbol],
    decreases offset + 1 - d,
{
    if !(d > offset || d > word || huffman::packed_len(input[offset - d + 1]) != len) {
        let here = huffman::packed_symbol(input[offset - d + 1]);
        assert(input[offset + 1 - d] as int / 32 != symbol);
        let next = if here < table.len() {
            table.update(here, Codeword { bits: (word - d) as u32, len: len as u8 })
        } else {
            table
        };
        assert forall|j: int| d + 1 <= j <= offset implies #[trigger] input[offset + 1 - j] as int
            / 32 != symbol by {}
        lemma_kept(next, input, offset, word, len, d + 1, symbol);
    }
}

proof fn lemma_entered(
    table: Seq<Codeword>,
    input: Seq<u16>,
    offset: int,
    word: int,
    len: int,
    d: int,
    e: int,
)
    requires
        0 <= d <= e <= offset,
        e <= word,
        offset + 1 < input.len(),
        forall|j: int| d <= j <= e ==> #[trigger] input[offset + 1 - j] as int % 32 == len,
        have_own_symbols(input, offset + 1),
        (input[offset + 1 - e] as int / 32) < table.len(),
    ensures
        huffman::with_class(table, input, offset, word, len, d)[input[offset + 1 - e] as int / 32]
            == (Codeword { bits: (word - e) as u32, len: len as u8 }),
    decreases e - d,
{
    let symbol = input[offset + 1 - e] as int / 32;
    assert(input[offset + 1 - d] as int % 32 == len);
    let here = huffman::packed_symbol(input[offset - d + 1]);
    let next = if here < table.len() {
        table.update(here, Codeword { bits: (word - d) as u32, len: len as u8 })
    } else {
        table
    };
    if d < e {
        lemma_entered(next, input, offset, word, len, d + 1, e);
    } else {
        assert forall|j: int| d + 1 <= j <= offset implies #[trigger] input[offset + 1 - j] as int
            / 32 != symbol by {
            assert(input[offset + 1 - e] as int / 32 != input[offset + 1 - j] as int / 32);
        }
        lemma_kept(next, input, offset, word, len, d + 1, symbol);
    }
}

proof fn lemma_entry(entry: u32, wide: bool, offset: int, word: int, above: int)
    requires
        0 <= word < 0x10_0000,
        0 <= offset < if wide {
            512int
        } else {
            256
        },
        above >= 0,
        wide ==> entry == word + 0x10_0000 * offset + 0x2000_0000 * above,
        !wide ==> entry == word + 0x10_0000 * offset + 0x1000_0000 * above,
    ensures
        huffman::class_offset(entry, wide) == offset,
        huffman::class_word(entry) == word,
{
    let high = entry as int / 0x10_0000;
    if wide {
        assert(high == offset + 512 * above);
        assert(high % 512 == offset);
    } else {
        assert(high == offset + 256 * above);
        assert(high % 256 == offset);
    }
}

/// The last class of a table gives the symbol at its offset the word it names,
/// and each symbol before that the next lower word, as long as the lengths are
/// the same. Every word has the length that stands with the symbol at the
/// offset.
pub proof fn law_words_of_a_class(
    input: Seq<u16>,
    idx: Seq<u32>,
    wide: bool,
    n: nat,
    offset: int,
    word: int,
    above: int,
    d: int,
)
    requires
        idx.len() >= 1,
        0 <= word < 0x10_0000,
        0 <= offset < if wide {
            512int
        } else {
            256
        },
        above >= 0,
        wide ==> idx.last() == word + 0x10_0000 * offset + 0x2000_0000 * above,
        !wide ==> idx.last() == word + 0x10_0000 * offset + 0x1000_0000 * above,
        0 <= d <= offset,
        d <= word,
        offset + 1 < input.len(),
        input[offset + 1] as int % 32 > 0,
        forall|j: int|
            0 <= j <= d ==> #[trigger] input[offset + 1 - j] as int % 32 == input[offset + 1] as int
                % 32,
        have_own_symbols(input, offset + 1),
        (input[offset + 1 - d] as int / 32) < n,
    ensures
        huffman::with_classes(input, idx, wide, n, idx.len())[input[offset + 1 - d] as int / 32] == (
        Codeword { bits: (word - d) as u32, len: (input[offset + 1] as int % 32) as u8 }),
{
    let k = idx.len();
    lemma_table_len(input, idx, wide, n, (k - 1) as nat);
    lemma_entry(idx[k - 1], wide, offset, word, above);
    let table = huffman::with_classes(input, idx, wide, n, (k - 1) as nat);
    lemma_entered(table, input, offset, word, input[offset + 1] as int % 32, 0, d);
}

proof fn lemma_table_len(input: Seq<u16>, idx: Seq<u32>, wide: bool, n: nat, k: nat)
    requires
        k <= idx.len(),
    ensures
        huffman::with_classes(input, idx, wide, n, k).len() == n,
    decreases k,
{
    if k > 0 {
        lemma_table_len(input, idx, wide, n, (k - 1) as nat);
        let table = huffman::with_classes(input, idx, wide, n, (k - 1) as nat);
        let offset = huffman::class_offset(idx[k - 1], wide);
        if !(offset + 1 >= input.len() || huffman::packed_len(input[offset + 1]) == 0) {
            lemma_class_len(
                table,
                input,
                offset,
                huffman::class_word(idx[k - 1]),
                huffman::packed_len(input[offset + 1]),
                0,
            );
        }
    }
}

proof fn lemma_class_len(
    table: Seq<Codeword>,
    input: Seq<u16>,
    offset: int,
    word: int,
    len: int,
    d: int,
)
    ensures
        huffman::with_class(table, input, offset, word, len, d).len() == table.len(),
    decreases offset + 1 - d,
{
    if !(d > offset || d > word || huffman::packed_len(input[offset - d + 1]) != len) {
        let here = huffman::packed_symbol(input[offset - d + 1]);
        let next = if here < table.len() {
            table.update(here, Codeword { bits: (word - d) as u32, len: len as u8 })
        } else {
            table
        };
        lemma_class_len(next, input, offset, word, len, d + 1);
    }
}

/// A class leaves the words of the symbols that it does not have. A table
/// without classes has no words.
pub proof fn law_classes_are_independent(
    input: Seq<u16>,
    idx: Seq<u32>,
    entry: u32,
    wide: bool,
    n: nat,
    symbol: int,
)
    requires
        0 <= symbol < n,
        forall|j: int|
            1 <= j < input.len() && j <= 1 + (entry as int / 0x10_0000) % (if wide {
                512int
            } else {
                256
            }) ==> #[trigger] input[j] as int / 32 != symbol,
    ensures
        huffman::with_classes(input, idx.push(entry), wide, n, idx.len() + 1)[symbol]
            == huffman::with_classes(input, idx, wide, n, idx.len())[symbol],
        huffman::with_classes(input, idx, wide, n, 0)[symbol].len == 0,
{
    let more = idx.push(entry);
    let k = idx.len();
    lemma_same_classes(input, more, idx, wide, n, k);
    lemma_table_len(input, idx, wide, n, k);
    let table = huffman::with_classes(input, idx, wide, n, k);
    let offset = huffman::class_offset(entry, wide);
    assert(more[k as int] == entry);
    if !(offset + 1 >= input.len() || huffman::packed_len(input[offset + 1]) == 0) {
        assert forall|j: int| 0 <= j <= offset implies #[trigger] input[offset + 1 - j] as int / 32
            != symbol by {}
        lemma_kept(
            table,
            input,
            offset,
            huffman::class_word(entry),
            huffman::packed_len(input[offset + 1]),
            0,
            symbol,
        );
    }
}

proof fn lemma_same_classes(
    input: Seq<u16>,
    a: Seq<u32>,
    b: Seq<u32>,
    wide: bool,
    n: nat,
    k: nat,
)
    requires
        k <= a.len(),
        k <= b.len(),
        forall|i: int| 0 <= i < k ==> #[trigger] a[i] == b[i],
    ensures
        huffman::with_classes(input, a, wide, n, k) == huffman::with_classes(input, b, wide, n, k),
    decreases k,
{
    if k > 0 {
        lemma_same_classes(input, a, b, wide, n, (k - 1) as nat);
        assert(a[k - 1] == b[k - 1]);
    }
}

} // verus!
