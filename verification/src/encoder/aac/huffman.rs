//! Spectral and scalefactor Huffman encoding.
//!
//! The codeword tables are derived from the decoder's ROM tables. That makes
//! the two halves consistent by construction.
//!
//! # Recovering codewords from the decode tables
//!
//! The decoder maps a `length`-bit prefix `p` to the symbol at index
//! `offset - (cwrd - p)`, where `(offset, cwrd, length)` describe one
//! codeword-length class. Reading that backwards, the symbol at index
//! `offset - d` has codeword `cwrd - d`, for as long as the entries keep the
//! same codeword length. Walking each class that way recovers every codeword
//! exactly.

use crate::bits;
use crate::bitstream::BitWriter;
use vstd::arithmetic::power2::*;
use vstd::prelude::*;

verus! {

/// One Huffman codeword.
#[derive(Debug, Clone, Copy, PartialEq, Eq, Structural)]
pub struct Codeword {
    pub bits: u32,
    pub len: u8,
}

impl Default for Codeword {
    fn default() -> (r: Self)
        ensures
            r == (Codeword { bits: 0, len: 0 }),
    {
        Codeword { bits: 0, len: 0 }
    }
}

impl Codeword {
    pub fn is_valid(&self) -> (r: bool)
        ensures
            r == (self.len > 0),
    {
        self.len > 0
    }

    /// The bits of the codeword.
    pub open spec fn word(self) -> Seq<bool> {
        bits::uint(self.bits as nat, self.len as nat)
    }
}

/// The ROM tables that a codebook is decoded with.
///
/// An entry of `idx_table` holds, above bit 20, the index of the last symbol of
/// a codeword-length class and, below, the codeword of that symbol. An entry of
/// `input_table` holds the symbol above bit 5 and the codeword length below;
/// symbol `i` stands at `i + 1`.
pub struct Rom {
    pub input_table: Vec<u16>,
    pub idx_table: Vec<u32>,
    /// Whether an index has nine bits rather than eight.
    pub wide_offset: bool,
}

/// The index of the last symbol of the class.
pub open spec fn class_offset(entry: u32, wide_offset: bool) -> int {
    (entry / 0x10_0000) as int % if wide_offset {
        512int
    } else {
        256
    }
}

/// The codeword of the last symbol of the class.
pub open spec fn class_word(entry: u32) -> int {
    entry as int % 0x10_0000
}

/// The codeword length in an entry of the input table.
pub open spec fn packed_len(packed: u16) -> int {
    packed as int % 32
}

/// The symbol in an entry of the input table.
pub open spec fn packed_symbol(packed: u16) -> int {
    packed as int / 32
}

/// A table in which one class has been entered from its `d`th symbol on: each
/// symbol further down has the next lower codeword, as long as the length
/// stays the same.
pub open spec fn with_class(
    table: Seq<Codeword>,
    input: Seq<u16>,
    offset: int,
    word: int,
    len: int,
    d: int,
) -> Seq<Codeword>
    decreases offset + 1 - d,
{
    if d > offset || d > word || packed_len(input[offset - d + 1]) != len {
        table
    } else {
        let symbol = packed_symbol(input[offset - d + 1]);
        with_class(
            if symbol < table.len() {
                table.update(symbol, Codeword { bits: (word - d) as u32, len: len as u8 })
            } else {
                table
            },
            input,
            offset,
            word,
            len,
            d + 1,
        )
    }
}

/// A table of `n` symbols in which the first `k` classes have been entered.
pub open spec fn with_classes(
    input: Seq<u16>,
    idx: Seq<u32>,
    wide_offset: bool,
    n: nat,
    k: nat,
) -> Seq<Codeword>
    decreases k,
{
    if k == 0 {
        Seq::new(n, |i: int| Codeword { bits: 0, len: 0 })
    } else {
        let table = with_classes(input, idx, wide_offset, n, (k - 1) as nat);
        let offset = class_offset(idx[k - 1], wide_offset);
        if offset + 1 >= input.len() || packed_len(input[offset + 1]) == 0 {
            table
        } else {
            with_class(
                table,
                input,
                offset,
                class_word(idx[k - 1]),
                packed_len(input[offset + 1]),
                0,
            )
        }
    }
}

/// The codewords that the ROM tables assign to `n` symbols.
pub open spec fn codewords(rom: Rom, n: nat) -> Seq<Codeword> {
    with_classes(rom.input_table@, rom.idx_table@, rom.wide_offset, n, rom.idx_table@.len())
}

/// Build the symbol-to-codeword table for one codebook.
pub fn build_table(rom: &Rom, num_symbols: usize) -> (r: Vec<Codeword>)
    ensures
        r@ == codewords(*rom, num_symbols as nat),
        r@.len() == num_symbols,
        forall|i: int| 0 <= i < r@.len() ==> (#[trigger] r@[i]).len < 32,
{
    let ghost input = rom.input_table@;
    let ghost idx = rom.idx_table@;
    let ghost n = num_symbols as nat;
    let mut out: Vec<Codeword> = Vec::with_capacity(num_symbols);
    let mut i: usize = 0;
    while i < num_symbols
        invariant
            i <= num_symbols,
            out@ == Seq::new(i as nat, |j: int| Codeword { bits: 0, len: 0 }),
        decreases num_symbols - i,
    {
        out.push(Codeword { bits: 0, len: 0 });
        i += 1;
        assert(out@ =~= Seq::new(i as nat, |j: int| Codeword { bits: 0, len: 0 }));
    }
    let mut k: usize = 0;
    while k < rom.idx_table.len()
        invariant
            k <= idx.len(),
            input == rom.input_table@,
            idx == rom.idx_table@,
            n == num_symbols,
            out@ == with_classes(input, idx, rom.wide_offset, n, k as nat),
            out@.len() == n,
            forall|i: int| 0 <= i < out@.len() ==> (#[trigger] out@[i]).len < 32,
        decreases idx.len() - k,
    {
        let entry: u32 = rom.idx_table[k];
        let offset: usize = if rom.wide_offset {
            (entry / 0x10_0000 % 512) as usize
        } else {
            (entry / 0x10_0000 % 256) as usize
        };
        let cwrd: u32 = entry % 0x10_0000;
        k += 1;
        if offset + 1 >= rom.input_table.len() {
            continue;
        }
        let length: u8 = (rom.input_table[offset + 1] % 32) as u8;
        if length == 0 {
            continue;
        }
        // Walk down from this class's top entry while the codeword length holds.
        let ghost goal = with_classes(input, idx, rom.wide_offset, n, k as nat);
        let mut d: usize = 0;
        while d <= offset && d as u32 <= cwrd && (rom.input_table[offset - d + 1] % 32) as u8
            == length
            invariant
                d <= offset + 1,
                offset < 512,
                offset + 1 < input.len(),
                input == rom.input_table@,
                out@.len() == n,
                forall|i: int| 0 <= i < out@.len() ==> (#[trigger] out@[i]).len < 32,
                n == num_symbols,
                length < 32,
                cwrd < 0x10_0000,
                goal == with_class(
                    out@,
                    input,
                    offset as int,
                    cwrd as int,
                    length as int,
                    d as int,
                ),
            decreases offset + 1 - d,
        {
            let symbol: usize = (rom.input_table[offset - d + 1] / 32) as usize;
            if symbol < num_symbols {
                out[symbol] = Codeword { bits: cwrd - d as u32, len: length };
            }
            d += 1;
        }
    }
    out
}

/// The shape of a spectral codebook.
#[derive(Debug, Clone, Copy, PartialEq, Eq, Structural)]
pub struct Codebook {
    /// The number of values of one digit.
    pub huff_mode: i32,
    /// The number of spectral lines in a tuple.
    pub dim: usize,
    /// The largest absolute value.
    pub lav: i32,
    /// Whether signs follow the codeword.
    pub unsigned: bool,
}

impl Codebook {
    /// The shapes of the spectral codebooks: pairs of books share one.
    pub open spec fn of(cb: u8) -> Option<Codebook> {
        match cb {
            1 | 2 => Some(Codebook { huff_mode: 3, dim: 4, lav: 1, unsigned: false }),
            3 | 4 => Some(Codebook { huff_mode: 3, dim: 4, lav: 2, unsigned: true }),
            5 | 6 => Some(Codebook { huff_mode: 9, dim: 2, lav: 4, unsigned: false }),
            7 | 8 => Some(Codebook { huff_mode: 8, dim: 2, lav: 7, unsigned: true }),
            9 | 10 => Some(Codebook { huff_mode: 13, dim: 2, lav: 12, unsigned: true }),
            11 => Some(Codebook { huff_mode: 17, dim: 2, lav: 16, unsigned: true }),
            _ => None,
        }
    }

    /// The number of symbols of the codebook.
    pub open spec fn symbols(self) -> nat {
        if self.dim == 4 {
            (self.huff_mode * self.huff_mode * self.huff_mode * self.huff_mode) as nat
        } else {
            (self.huff_mode * self.huff_mode) as nat
        }
    }
}

/// The shape of spectral codebook `cb`.
pub fn codebook(cb: u8) -> (r: Option<Codebook>)
    ensures
        r == Codebook::of(cb),
{
    match cb {
        1 | 2 => Some(Codebook { huff_mode: 3, dim: 4, lav: 1, unsigned: false }),
        3 | 4 => Some(Codebook { huff_mode: 3, dim: 4, lav: 2, unsigned: true }),
        5 | 6 => Some(Codebook { huff_mode: 9, dim: 2, lav: 4, unsigned: false }),
        7 | 8 => Some(Codebook { huff_mode: 8, dim: 2, lav: 7, unsigned: true }),
        9 | 10 => Some(Codebook { huff_mode: 13, dim: 2, lav: 12, unsigned: true }),
        11 => Some(Codebook { huff_mode: 17, dim: 2, lav: 16, unsigned: true }),
        _ => None,
    }
}

/// The codewords of all codebooks.
pub struct EncodeTables {
    /// Per spectral codebook 1..=11, indexed by symbol.
    spectral: Vec<Vec<Codeword>>,
    /// Scalefactor codebook, indexed by `delta + 60`.
    scalefactor: Vec<Codeword>,
}

/// Which codewords there are.
#[verifier::ext_equal]
pub struct Codes {
    /// Per spectral codebook, indexed by symbol; codebook 0 has none.
    pub spectral: Seq<Seq<Codeword>>,
    /// For each scalefactor delta from -60.
    pub scalefactor: Seq<Codeword>,
}

impl View for EncodeTables {
    type V = Codes;

    closed spec fn view(&self) -> Codes {
        Codes {
            spectral: Seq::new(self.spectral@.len(), |i: int| self.spectral@[i]@),
            scalefactor: self.scalefactor@,
        }
    }
}

impl Codes {
    /// The codewords that the ROM tables describe.
    pub open spec fn of(books: Seq<Rom>, scalefactor: Rom) -> Codes {
        Codes {
            spectral: Seq::new(
                12,
                |i: int|
                    if i == 0 {
                        Seq::empty()
                    } else {
                        codewords(books[i - 1], (Codebook::of(i as u8)->0).symbols())
                    },
            ),
            scalefactor: codewords(scalefactor, 121),
        }
    }

    /// The codewords of a codebook, none where there is no such codebook.
    pub open spec fn spectral_table(self, cb: u8) -> Seq<Codeword> {
        if cb < self.spectral.len() {
            self.spectral[cb as int]
        } else {
            Seq::empty()
        }
    }

    /// The codeword of a symbol, if it has one.
    pub open spec fn spectral_word(self, cb: u8, symbol: int) -> Option<Codeword> {
        if cb < self.spectral.len() && 0 <= symbol < self.spectral[cb as int].len()
            && self.spectral[cb as int][symbol].len > 0 {
            Some(self.spectral[cb as int][symbol])
        } else {
            None
        }
    }

    /// The codeword of a scalefactor delta, if it has one.
    pub open spec fn delta_word(self, delta: int) -> Option<Codeword> {
        if 0 <= delta + 60 < self.scalefactor.len() && self.scalefactor[delta + 60].len > 0 {
            Some(self.scalefactor[delta + 60])
        } else {
            None
        }
    }
}

impl EncodeTables {
    #[verifier::type_invariant]
    closed spec fn inv(self) -> bool {
        &&& forall|i: int, j: int|
            #![trigger self.spectral@[i]@[j]]
            0 <= i < self.spectral@.len() && 0 <= j < self.spectral@[i]@.len()
                ==> self.spectral@[i]@[j].len < 32
        &&& forall|i: int|
            0 <= i < self.scalefactor@.len() ==> (#[trigger] self.scalefactor@[i]).len < 32
        &&& self.scalefactor@.len() == 121
    }

    /// The codewords of the eleven spectral codebooks and the scalefactor
    /// codebook.
    pub fn new(books: &Vec<Rom>, scalefactor: &Rom) -> (r: Self)
        requires
            books@.len() == 11,
        ensures
            r@ == Codes::of(books@, *scalefactor),
    {
        let ghost goal = Codes::of(books@, *scalefactor);
        let mut spectral: Vec<Vec<Codeword>> = Vec::with_capacity(12);
        let none: Vec<Codeword> = Vec::new();
        assert(none@ =~= goal.spectral[0]);
        spectral.push(none);
        let mut cb: u8 = 1;
        while cb <= 11
            invariant
                1 <= cb <= 12,
                books@.len() == 11,
                goal == Codes::of(books@, *scalefactor),
                spectral@.len() == cb,
                forall|i: int| 0 <= i < cb ==> (#[trigger] spectral@[i])@ == goal.spectral[i],
                forall|i: int, j: int|
                    #![trigger spectral@[i]@[j]]
                    0 <= i < cb && 0 <= j < spectral@[i]@.len() ==> spectral@[i]@[j].len < 32,
            decreases 12 - cb,
        {
            let num: usize = match codebook(cb) {
                Some(book) => {
                    let m: usize = book.huff_mode as usize;
                    assert(m * m <= 289 && (m == 3 ==> m * m == 9)) by (nonlinear_arith)
                        requires
                            3 <= m <= 17,
                    ;
                    let square: usize = m * m;
                    if book.dim == 4 {
                        assert(square * m * m == m * m * m * m && square * m == 27);
                        square * m * m
                    } else {
                        square
                    }
                },
                None => 0,
            };
            let table: Vec<Codeword> = build_table(&books[cb as usize - 1], num);
            assert(table@ == goal.spectral[cb as int]);
            spectral.push(table);
            cb += 1;
        }
        let scalefactor_table: Vec<Codeword> = build_table(scalefactor, 121);
        let r = EncodeTables { spectral, scalefactor: scalefactor_table };
        assert(r@.spectral =~= goal.spectral);
        r
    }

    /// The codewords of spectral codebook `cb`, indexed by symbol; none where
    /// there is no such codebook.
    pub fn spectral_codes(&self, cb: u8) -> (r: &[Codeword])
        ensures
            r@ == self@.spectral_table(cb),
    {
        if (cb as usize) < self.spectral.len() {
            assert(self@.spectral[cb as int] == self.spectral@[cb as int]@);
            self.spectral[cb as usize].as_slice()
        } else {
            let none: &[Codeword] = &[];
            assert(none@ =~= Seq::<Codeword>::empty());
            none
        }
    }

    /// The codewords of the scalefactor codebook, indexed by `delta + 60`.
    pub fn scalefactor_codes(&self) -> (r: &[Codeword])
        ensures
            r@ == self@.scalefactor,
            r@.len() == 121,
    {
        proof {
            use_type_invariant(self);
        }
        self.scalefactor.as_slice()
    }
}

/// Codeword for `symbol` in spectral codebook `cb`.
pub fn spectral_codeword(tables: &EncodeTables, cb: u8, symbol: usize) -> (r: Option<Codeword>)
    ensures
        r == tables@.spectral_word(cb, symbol as int),
        r matches Some(cw) ==> cw.len < 32,
{
    proof {
        use_type_invariant(tables);
    }
    let at: usize = cb as usize;
    if at >= tables.spectral.len() {
        return None;
    }
    assert(tables@.spectral[at as int] == tables.spectral@[at as int]@);
    if symbol >= tables.spectral[at].len() {
        return None;
    }
    let cw: Codeword = tables.spectral[at][symbol];
    if cw.is_valid() {
        Some(cw)
    } else {
        None
    }
}

/// Codeword for a scalefactor DPCM delta, which must lie in `-60..=60`.
pub fn scalefactor_codeword(tables: &EncodeTables, delta: i32) -> (r: Option<Codeword>)
    ensures
        r == tables@.delta_word(delta as int),
        r matches Some(cw) ==> cw.len < 32,
{
    proof {
        use_type_invariant(tables);
    }
    let idx: i64 = delta as i64 + 60;
    if idx < 0 || idx as usize >= tables.scalefactor.len() {
        return None;
    }
    let cw: Codeword = tables.scalefactor[idx as usize];
    if cw.is_valid() {
        Some(cw)
    } else {
        None
    }
}

pub open spec fn magnitude(v: i32) -> int {
    if v < 0 {
        -v
    } else {
        v as int
    }
}

/// Whether a value is coded as an escape.
pub open spec fn escapes(cb: u8, book: Codebook, v: i32) -> bool {
    cb == 11 && magnitude(v) >= book.lav
}

/// The number of value bits of an escape of at least `n`: a value of `n` codes
/// magnitudes below `2^(n+1)`; nothing above twenty.
pub open spec fn escape_size(mag: int, n: nat) -> Option<nat>
    decreases 21 - n,
{
    if n > 20 {
        None
    } else if mag < pow2(n + 1) {
        Some(n)
    } else {
        escape_size(mag, n + 1)
    }
}

/// The digit of a tuple's symbol that stands for `v`, if the codebook has one.
pub open spec fn digit(cb: u8, book: Codebook, v: i32) -> Option<int> {
    if !book.unsigned {
        if magnitude(v) > book.lav {
            None
        } else {
            Some(v + book.lav)
        }
    } else if escapes(cb, book, v) {
        if escape_size(magnitude(v), 4) is None {
            None
        } else {
            Some(book.lav as int)
        }
    } else if magnitude(v) > book.lav {
        None
    } else {
        Some(magnitude(v))
    }
}

/// The symbol that stands for the first `k` values: their digits, the first
/// highest.
pub open spec fn tuple_symbol(cb: u8, book: Codebook, values: Seq<i32>, k: nat) -> Option<int>
    decreases k,
{
    if k == 0 {
        Some(0)
    } else {
        match (tuple_symbol(cb, book, values, (k - 1) as nat), digit(cb, book, values[k - 1])) {
            (Some(head), Some(d)) => Some(head * book.huff_mode + d),
            _ => None,
        }
    }
}

/// The signs of the first `k` values: one bit for each that is not zero.
pub open spec fn tuple_signs(values: Seq<i32>, k: nat) -> Seq<bool>
    decreases k,
{
    if k == 0 {
        Seq::empty()
    } else if values[k - 1] != 0 {
        tuple_signs(values, (k - 1) as nat) + bits::bit(values[k - 1] < 0)
    } else {
        tuple_signs(values, (k - 1) as nat)
    }
}

/// An escape of `n` value bits: a one for each bit above four, a zero, and the
/// value less its highest bit.
pub open spec fn escape_word(mag: int, n: nat) -> Seq<bool> {
    (Seq::new((n - 4) as nat, |i: int| true) + bits::bit(false)) + bits::uint(
        (mag - pow2(n)) as nat,
        n,
    )
}

/// The escapes of the first `k` values.
pub open spec fn tuple_escapes(cb: u8, book: Codebook, values: Seq<i32>, k: nat) -> Seq<bool>
    decreases k,
{
    if k == 0 {
        Seq::empty()
    } else {
        let v = values[k - 1];
        let head = tuple_escapes(cb, book, values, (k - 1) as nat);
        if escapes(cb, book, v) {
            head + escape_word(magnitude(v), escape_size(magnitude(v), 4)->0)
        } else {
            head
        }
    }
}

/// The bits of a tuple: its codeword, then the signs and the escapes of an
/// unsigned codebook; nothing where the codebook cannot represent it.
pub open spec fn tuple_bits(codes: Codes, cb: u8, values: Seq<i32>) -> Option<Seq<bool>> {
    match Codebook::of(cb) {
        None => None,
        Some(book) => if values.len() != book.dim {
            None
        } else {
            match tuple_symbol(cb, book, values, values.len()) {
                None => None,
                Some(symbol) => match codes.spectral_word(cb, symbol) {
                    None => None,
                    Some(cw) => Some(
                        if book.unsigned {
                            (cw.word() + tuple_signs(values, values.len())) + tuple_escapes(
                                cb,
                                book,
                                values,
                                values.len(),
                            )
                        } else {
                            cw.word()
                        },
                    ),
                },
            }
        },
    }
}

/// Whether no value is the one whose magnitude an `i32` does not hold.
pub open spec fn measurable(values: Seq<i32>) -> bool {
    forall|i: int| 0 <= i < values.len() ==> #[trigger] values[i] > i32::MIN
}

fn unsigned_abs(v: i32) -> (r: i32)
    requires
        v > i32::MIN,
    ensures
        r == magnitude(v),
{
    if v < 0 {
        -v
    } else {
        v
    }
}

/// The number of value bits of an escape, if there is one.
fn escape_bits(mag: i32) -> (r: Option<u32>)
    ensures
        match escape_size(mag as int, 4) {
            Some(n) => r == Some(n as u32) && 4 <= n <= 20 && mag < pow2(n + 1) && (n > 4 ==> mag
                >= pow2(n)),
            None => r is None,
        },
{
    let mut n: u32 = 4;
    while n <= 20
        invariant
            4 <= n <= 21,
            escape_size(mag as int, n as nat) == escape_size(mag as int, 4),
            n > 4 ==> mag >= pow2(n as nat),
        decreases 21 - n,
    {
        proof {
            lemma2_to64();
            if n + 1 < 21 {
                lemma_pow2_strictly_increases((n + 1) as nat, 21);
            }
            vstd::bits::lemma_u64_shl_is_mul(1, (n + 1) as u64);
        }
        // A value of n codes magnitudes in [2^n, 2^(n+1)).
        if (mag as i64) < (1u64 << ((n + 1) as u64)) as i64 {
            return Some(n);
        }
        n += 1;
    }
    None
}

/// Map a tuple to its codebook symbol, plus the number of trailing bits (signs
/// and escapes) that follow the codeword.
fn encode_tuple_symbol(book: &Codebook, cb: u8, values: &[i32]) -> (r: Option<(usize, u32)>)
    requires
        Codebook::of(cb) == Some(*book),
        values@.len() == book.dim,
        measurable(values@),
    ensures
        match tuple_symbol(cb, *book, values@, values@.len()) {
            None => r is None,
            Some(symbol) => {
                &&& r is Some
                &&& (r->0).0 == symbol
                &&& book.unsigned ==> (r->0).1 == tuple_signs(values@, values@.len()).len()
                    + tuple_escapes(cb, *book, values@, values@.len()).len()
                &&& !book.unsigned ==> (r->0).1 == 0
                &&& (r->0).1 <= 400
            },
        },
{
    let mut symbol: usize = 0;
    let mut extra: u32 = 0;
    let m: usize = book.huff_mode as usize;
    let mut k: usize = 0;
    let ghost mut limit: int = 1;
    while k < values.len()
        invariant
            k <= values@.len() == book.dim,
            Codebook::of(cb) == Some(*book),
            measurable(values@),
            m == book.huff_mode,
            tuple_symbol(cb, *book, values@, k as nat) == Some(symbol as int),
            book.unsigned ==> extra == tuple_signs(values@, k as nat).len() + tuple_escapes(
                cb,
                *book,
                values@,
                k as nat,
            ).len(),
            !book.unsigned ==> extra == 0,
            extra <= 100 * k,
            0 <= symbol < limit,
            limit == 1 || k > 0,
            k == 0 ==> limit == 1,
            k == 1 ==> limit == m,
            k == 2 ==> limit == m * m,
            k == 3 ==> limit == m * m * m,
            k == 4 ==> limit == m * m * m * m,
        decreases values@.len() - k,
    {
        let v: i32 = values[k];
        assert(v > i32::MIN);
        let d: i32 = if book.unsigned {
            let mag: i32 = unsigned_abs(v);
            if cb == 11 && mag >= book.lav {
                match escape_bits(mag) {
                    Some(n) => {
                        proof {
                            lemma_escape_word_len(mag as int, n as nat);
                        }
                        extra = extra + 1 + (n - 4) + 1 + n;
                        book.lav
                    },
                    None => {
                        proof {
                            lemma_symbol_none(cb, *book, values@, (k + 1) as nat);
                        }
                        return None;
                    },
                }
            } else if mag > book.lav {
                proof {
                    lemma_symbol_none(cb, *book, values@, (k + 1) as nat);
                }
                return None;
            } else {
                if mag != 0 {
                    extra = extra + 1;
                }
                mag
            }
        } else {
            if unsigned_abs(v) > book.lav {
                proof {
                    lemma_symbol_none(cb, *book, values@, (k + 1) as nat);
                }
                return None;
            }
            v + book.lav
        };
        proof {
            let s = symbol as int;
            assert(0 <= d < m);
            assert(s * m + d < limit * m) by (nonlinear_arith)
                requires
                    0 <= s < limit,
                    0 <= d < m,
            ;
            assert(s * m >= 0) by (nonlinear_arith)
                requires
                    s >= 0,
                    m >= 0,
            ;
            let c = limit;
            assert(1 * m == m);
            limit = limit * m as int;
            lemma_small_powers(m as int, book.dim as int);
        }
        symbol = symbol * m + d as usize;
        k += 1;
    }
    Some((symbol, extra))
}

proof fn lemma_small_powers(m: int, dim: int)
    requires
        (m == 3 && dim == 4) || (3 <= m <= 17 && dim == 2),
    ensures
        m * m <= 289,
        dim == 4 ==> m * m * m <= 27 && m * m * m * m <= 81,
{
    assert(m * m <= 289) by (nonlinear_arith)
        requires
            3 <= m <= 17,
    ;
    if dim == 4 {
        assert(m * m == 9);
        assert(m * m * m == 27);
    }
}

/// A tuple with a value that has no digit has no symbol.
proof fn lemma_symbol_none(cb: u8, book: Codebook, values: Seq<i32>, k: nat)
    requires
        k <= values.len(),
        tuple_symbol(cb, book, values, k) is None,
    ensures
        tuple_symbol(cb, book, values, values.len()) is None,
    decreases values.len() - k,
{
    if k < values.len() {
        lemma_symbol_none(cb, book, values, k + 1);
    }
}

proof fn lemma_escape_word_len(mag: int, n: nat)
    requires
        n >= 4,
    ensures
        escape_word(mag, n).len() == (n - 4) + 1 + n,
{
    bits::lemma_uint_len((mag - pow2(n)) as nat, n);
}

/// Bits needed to code one tuple with codebook `cb`, including sign and escape
/// bits: as many as [`write_tuple`] writes.
///
/// Returns `None` when the codebook cannot represent the tuple.
pub fn tuple_cost(tables: &EncodeTables, cb: u8, values: &[i32]) -> (r: Option<u32>)
    requires
        measurable(values@),
    ensures
        match tuple_bits(tables@, cb, values@) {
            Some(s) => r is Some && r->0 == s.len(),
            None => r is None,
        },
{
    let book: Codebook = match codebook(cb) {
        Some(book) => book,
        None => return None,
    };
    if values.len() != book.dim {
        return None;
    }
    let (symbol, extra): (usize, u32) = match encode_tuple_symbol(&book, cb, values) {
        Some(found) => found,
        None => return None,
    };
    match spectral_codeword(tables, cb, symbol) {
        Some(cw) => {
            proof {
                bits::lemma_uint_len(cw.bits as nat, cw.len as nat);
            }
            Some(cw.len as u32 + extra)
        },
        None => None,
    }
}

/// Write the bits of a codeword.
fn write_codeword(writer: &mut BitWriter, cw: Codeword)
    requires
        cw.len <= 64,
    ensures
        final(writer)@ == old(writer)@ + cw.word(),
{
    writer.write_bits(cw.bits as u64, cw.len as usize);
}

/// Write one escape sequence.
fn write_escape(writer: &mut BitWriter, mag: i32)
    requires
        mag >= 16,
        escape_size(mag as int, 4) is Some,
    ensures
        final(writer)@ == old(writer)@ + escape_word(
            mag as int,
            escape_size(mag as int, 4)->0,
        ),
{
    let n: u32 = match escape_bits(mag) {
        Some(n) => n,
        None => 4,
    };
    proof {
        lemma2_to64();
        lemma_pow2_strictly_increases(n as nat, 21);
        vstd::bits::lemma_u64_shl_is_mul(1, n as u64);
    }
    let mut i: u32 = 4;
    assert(writer@ =~= old(writer)@ + Seq::new(0, |i: int| true));
    while i < n
        invariant
            4 <= i <= n,
            writer@ == old(writer)@ + Seq::new((i - 4) as nat, |i: int| true),
        decreases n - i,
    {
        writer.write_bit(true);
        i += 1;
        assert(writer@ =~= old(writer)@ + Seq::new((i - 4) as nat, |i: int| true));
    }
    writer.write_bit(false);
    writer.write_bits((mag as u64) - (1u64 << (n as u64)), n as usize);
    assert(writer@ =~= old(writer)@ + escape_word(mag as int, n as nat));
}

/// Every value of a tuple that has a symbol has a digit.
proof fn lemma_digits(cb: u8, book: Codebook, values: Seq<i32>, k: nat, i: int)
    requires
        0 <= i < k <= values.len(),
        tuple_symbol(cb, book, values, k) is Some,
    ensures
        digit(cb, book, values[i]) is Some,
    decreases k,
{
    if i < k - 1 {
        lemma_digits(cb, book, values, (k - 1) as nat, i);
    }
}

/// Write one tuple with codebook `cb`. Returns `false` if it cannot be
/// represented.
pub fn write_tuple(writer: &mut BitWriter, tables: &EncodeTables, cb: u8, values: &[i32]) -> (r: bool)
    requires
        measurable(values@),
    ensures
        match tuple_bits(tables@, cb, values@) {
            Some(s) => r && final(writer)@ == old(writer)@ + s,
            None => !r && final(writer)@ == old(writer)@,
        },
{
    let book: Codebook = match codebook(cb) {
        Some(book) => book,
        None => return false,
    };
    if values.len() != book.dim {
        return false;
    }
    let (symbol, _extra): (usize, u32) = match encode_tuple_symbol(&book, cb, values) {
        Some(found) => found,
        None => return false,
    };
    let cw: Codeword = match spectral_codeword(tables, cb, symbol) {
        Some(cw) => cw,
        None => return false,
    };
    write_codeword(writer, cw);
    if !book.unsigned {
        return true;
    }

    // Sign bits for every nonzero value, then escapes, in that order.
    let ghost start = writer@;
    let mut k: usize = 0;
    assert(writer@ =~= start + tuple_signs(values@, 0));
    while k < values.len()
        invariant
            k <= values@.len(),
            writer@ == start + tuple_signs(values@, k as nat),
        decreases values@.len() - k,
    {
        if values[k] != 0 {
            writer.write_bit(values[k] < 0);
        }
        k += 1;
        assert(writer@ =~= start + tuple_signs(values@, k as nat));
    }
    let ghost signed = writer@;
    let mut k: usize = 0;
    assert(writer@ =~= signed + tuple_escapes(cb, book, values@, 0));
    while k < values.len()
        invariant
            k <= values@.len(),
            measurable(values@),
            Codebook::of(cb) == Some(book),
            book.unsigned,
            tuple_symbol(cb, book, values@, values@.len()) is Some,
            writer@ == signed + tuple_escapes(cb, book, values@, k as nat),
        decreases values@.len() - k,
    {
        assert(values@[k as int] > i32::MIN);
        let mag: i32 = unsigned_abs(values[k]);
        if cb == 11 && mag >= book.lav {
            proof {
                lemma_digits(cb, book, values@, values@.len(), k as int);
            }
            write_escape(writer, mag);
        }
        k += 1;
        assert(writer@ =~= signed + tuple_escapes(cb, book, values@, k as nat));
    }
    assert(writer@ =~= old(writer)@ + tuple_bits(tables@, cb, values@)->0);
    true
}

/// Write a scalefactor DPCM delta. Returns `false` if it has no codeword.
pub fn write_scalefactor_delta(writer: &mut BitWriter, tables: &EncodeTables, delta: i32) -> (r: bool)
    ensures
        match tables@.delta_word(delta as int) {
            Some(cw) => r && final(writer)@ == old(writer)@ + cw.word(),
            None => !r && final(writer)@ == old(writer)@,
        },
{
    match scalefactor_codeword(tables, delta) {
        Some(cw) => {
            write_codeword(writer, cw);
            true
        },
        None => false,
    }
}

/// Largest magnitude codebook `cb` can code without escaping.
pub fn codebook_lav(cb: u8) -> (r: i32)
    ensures
        r == match Codebook::of(cb) {
            Some(book) => book.lav,
            None => 0,
        },
{
    match codebook(cb) {
        Some(book) => book.lav,
        None => 0,
    }
}

/// The largest magnitude of the first `k` values.
pub open spec fn peak(band: Seq<i32>, k: nat) -> int
    decreases k,
{
    if k == 0 {
        0
    } else {
        let head = peak(band, (k - 1) as nat);
        if magnitude(band[k - 1]) > head {
            magnitude(band[k - 1])
        } else {
            head
        }
    }
}

/// The first codebook whose largest value is not below a peak.
pub open spec fn book_for_peak(peak: int) -> Option<u8> {
    if peak == 0 {
        None
    } else if peak <= 1 {
        Some(1)
    } else if peak <= 2 {
        Some(3)
    } else if peak <= 4 {
        Some(5)
    } else if peak <= 7 {
        Some(7)
    } else if peak <= 12 {
        Some(9)
    } else {
        Some(11)
    }
}

/// Smallest codebook that can code every value in `band`, or `None` if all are
/// zero.
///
/// Prefers the lower-numbered book of each pair, which is the one tuned for the
/// smaller values; the caller refines the choice by measured cost.
pub fn minimum_codebook(band: &[i32]) -> (r: Option<u8>)
    requires
        measurable(band@),
    ensures
        r == book_for_peak(peak(band@, band@.len())),
{
    let mut top: i32 = 0;
    let mut k: usize = 0;
    while k < band.len()
        invariant
            k <= band@.len(),
            measurable(band@),
            top == peak(band@, k as nat),
        decreases band@.len() - k,
    {
        assert(band@[k as int] > i32::MIN);
        let mag: i32 = unsigned_abs(band[k]);
        if mag > top {
            top = mag;
        }
        k += 1;
    }
    if top == 0 {
        return None;
    }
    Some(
        match top {
            1 => 1,
            2 => 3,
            3 | 4 => 5,
            5 | 6 | 7 => 7,
            8 | 9 | 10 | 11 | 12 => 9,
            _ => 11,
        },
    )
}

pub(crate) proof fn lemma_peak(band: Seq<i32>, k: nat, i: int)
    requires
        0 <= i < k <= band.len(),
    ensures
        magnitude(band[i]) <= peak(band, k),
    decreases k,
{
    if i < k - 1 {
        lemma_peak(band, (k - 1) as nat, i);
    }
}

pub(crate) proof fn lemma_peak_zero(band: Seq<i32>, k: nat)
    requires
        k <= band.len(),
        forall|i: int| 0 <= i < band.len() ==> band[i] == 0,
    ensures
        peak(band, k) == 0,
    decreases k,
{
    if k > 0 {
        lemma_peak_zero(band, (k - 1) as nat);
    }
}

proof fn lemma_escapable(mag: int, n: nat)
    requires
        4 <= n <= 20,
        mag < 0x20_0000,
    ensures
        escape_size(mag, n) is Some,
    decreases 21 - n,
{
    lemma2_to64();
    if n < 20 {
        lemma_escapable(mag, n + 1);
    }
}

proof fn lemma_all_digits(cb: u8, book: Codebook, values: Seq<i32>, k: nat)
    requires
        k <= values.len(),
        forall|i: int| 0 <= i < k ==> digit(cb, book, #[trigger] values[i]) is Some,
    ensures
        tuple_symbol(cb, book, values, k) is Some,
    decreases k,
{
    if k > 0 {
        lemma_all_digits(cb, book, values, (k - 1) as nat);
    }
}

/// The chosen codebook can represent every value of the band it was chosen
/// for, up to the longest escape; none is chosen exactly for a band of zeros.
pub proof fn law_minimum_codebook_covers(band: Seq<i32>, tuple: Seq<i32>)
    requires
        forall|i: int| 0 <= i < band.len() ==> magnitude(#[trigger] band[i]) < 0x20_0000,
        forall|i: int| 0 <= i < tuple.len() ==> band.contains(#[trigger] tuple[i]),
    ensures
        book_for_peak(peak(band, band.len())) is None <==> (forall|i: int|
            0 <= i < band.len() ==> band[i] == 0),
        book_for_peak(peak(band, band.len())) matches Some(cb) ==> {
            &&& Codebook::of(cb) is Some
            &&& tuple_symbol(cb, Codebook::of(cb)->0, tuple, tuple.len()) is Some
        },
{
    let top = peak(band, band.len());
    if forall|i: int| 0 <= i < band.len() ==> band[i] == 0 {
        lemma_peak_zero(band, band.len());
    } else {
        let i = choose|i: int| 0 <= i < band.len() && band[i] != 0;
        lemma_peak(band, band.len(), i);
    }
    if let Some(cb) = book_for_peak(top) {
        let book = Codebook::of(cb)->0;
        assert forall|i: int| 0 <= i < tuple.len() implies digit(
            cb,
            book,
            #[trigger] tuple[i],
        ) is Some by {
            let j = choose|j: int| 0 <= j < band.len() && band[j] == tuple[i];
            lemma_peak(band, band.len(), j);
            lemma_escapable(magnitude(tuple[i]), 4);
        }
        lemma_all_digits(cb, book, tuple, tuple.len());
    }
}

} // verus!
