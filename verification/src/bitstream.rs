//! Bit-level reading and writing, most significant bit first.
//!
//! A [`BitReader`] is viewed as the bits it has not delivered yet, a
//! [`BitWriter`] as the bits it has been given. [`Cursor`] is the mathematical
//! reader in which the formats are specified.

use crate::bits;
use crate::error::{BitstreamError, Error, ErrorView, Result};
use vstd::arithmetic::power2::*;
use vstd::prelude::*;

verus! {

/// The error for a field of `needed` bits where only `available` are left.
pub open spec fn eof(needed: nat, available: nat) -> ErrorView {
    ErrorView::Bitstream(
        BitstreamError::UnexpectedEof {
            needed_bits: needed as usize,
            available_bits: available as usize,
        },
    )
}

/// A position in a bit string, and the first fault met on the way there.
///
/// Once a fault is recorded nothing moves any more: every field reads as zero
/// and the bits stay where the fault found them. A format can thus be written
/// down as one straight list of fields.
#[verifier::ext_equal]
pub struct Cursor {
    pub bits: Seq<bool>,
    pub fault: Option<ErrorView>,
}

impl Cursor {
    /// The start of a bit string.
    pub open spec fn at(bits: Seq<bool>) -> Cursor {
        Cursor { bits, fault: None }
    }

    /// An unsigned field of `n` bits.
    #[verifier::opaque]
    pub open spec fn read(self, n: nat) -> (nat, Cursor) {
        if self.fault is Some {
            (0, self)
        } else if self.bits.len() < n {
            (0, Cursor { bits: self.bits, fault: Some(eof(n, self.bits.len())) })
        } else {
            (
                bits::value(self.bits.take(n as int)),
                Cursor { bits: self.bits.skip(n as int), fault: None },
            )
        }
    }

    /// A one-bit field.
    #[verifier::opaque]
    pub open spec fn flag(self) -> (bool, Cursor) {
        if self.fault is Some {
            (false, self)
        } else if self.bits.len() < 1 {
            (false, Cursor { bits: self.bits, fault: Some(eof(1, self.bits.len())) })
        } else {
            (self.bits[0], Cursor { bits: self.bits.skip(1), fault: None })
        }
    }

    /// An unsigned field that is there only if `present` says so.
    pub open spec fn read_if(self, present: bool, n: nat) -> (nat, Cursor) {
        if present {
            self.read(n)
        } else {
            (0, self)
        }
    }

    /// Records the fault `e` if `condition` holds.
    pub open spec fn fail_if(self, condition: bool, e: ErrorView) -> Cursor {
        if self.fault is None && condition {
            Cursor { bits: self.bits, fault: Some(e) }
        } else {
            self
        }
    }

    /// What a parser that has got here returns.
    pub open spec fn settle<T>(self, v: T) -> std::result::Result<T, ErrorView> {
        match self.fault {
            None => Ok(v),
            Some(e) => Err(e),
        }
    }
}

/// Reading a field gives back what was written into it.
pub broadcast proof fn lemma_read_field(v: nat, n: nat, rest: Seq<bool>)
    ensures
        #[trigger] Cursor::at(bits::field(v, n, rest)).read(n) == (v % pow2(n), Cursor::at(rest)),
{
    reveal(bits::field);
    reveal(Cursor::read);
    bits::lemma_uint_len(v, n);
    bits::lemma_value_of_uint(v, n);
    let all = bits::uint(v, n) + rest;
    assert(all.take(n as int) =~= bits::uint(v, n));
    assert(all.skip(n as int) =~= rest);
}

pub broadcast proof fn lemma_read_flag(b: bool, rest: Seq<bool>)
    ensures
        #[trigger] Cursor::at(bits::flag(b, rest)).flag() == (b, Cursor::at(rest)),
{
    reveal(bits::flag);
    reveal(Cursor::flag);
    let all = bits::bit(b) + rest;
    assert(all.skip(1) =~= rest);
}

/// After a fault nothing is read any more.
pub broadcast proof fn lemma_read_faulted(c: Cursor, n: nat)
    ensures
        c.fault is Some ==> #[trigger] c.read(n) == (0nat, c),
        c.read(n).1.fault is Some ==> c.read(n).0 == 0,
{
    reveal(Cursor::read);
}

pub broadcast proof fn lemma_flag_faulted(c: Cursor)
    ensures
        c.fault is Some ==> #[trigger] c.flag() == (false, c),
        c.flag().1.fault is Some ==> !c.flag().0,
{
    reveal(Cursor::flag);
}

/// Reading a field that is there leaves as many bits less as it is wide.
pub broadcast proof fn lemma_read_shortens(c: Cursor, n: nat)
    ensures
        (#[trigger] c.read(n)).1.fault is None ==> c.fault is None && c.read(n).1.bits.len() + n
            == c.bits.len(),
{
    reveal(Cursor::read);
}

pub broadcast proof fn lemma_flag_shortens(c: Cursor)
    ensures
        (#[trigger] c.flag()).1.fault is None ==> c.fault is None && c.flag().1.bits.len() + 1
            == c.bits.len(),
{
    reveal(Cursor::flag);
}

pub broadcast group group_faulted {
    lemma_read_faulted,
    lemma_flag_faulted,
}

pub broadcast group group_shortens {
    lemma_read_shortens,
    lemma_flag_shortens,
}

pub broadcast group group_read {
    lemma_read_field,
    lemma_read_flag,
}

/// A reader over a byte slice.
pub struct BitReader<'a> {
    data: &'a [u8],
    pos: usize,
}

impl<'a> BitReader<'a> {
    #[verifier::type_invariant]
    closed spec fn inv(self) -> bool {
        &&& 8 * self.data@.len() <= usize::MAX
        &&& self.pos <= 8 * self.data@.len()
    }

    /// The number of bits delivered so far.
    pub closed spec fn consumed(self) -> nat {
        self.pos as nat
    }

    /// The position at which `rest` are the bits that are left.
    pub open spec fn position_before(self, rest: Seq<bool>) -> int {
        self.consumed() + self@.len() - rest.len()
    }

    /// The reader as a cursor.
    pub open spec fn cursor(self) -> Cursor {
        Cursor::at(self@)
    }

    pub fn new(data: &'a [u8]) -> (r: Self)
        requires
            8 * data@.len() <= usize::MAX,
        ensures
            r@ == bits::bytes(data@),
            r.consumed() == 0,
    {
        proof {
            bits::lemma_bytes_len(data@);
            assert(bits::bytes(data@).skip(0) =~= bits::bytes(data@));
        }
        BitReader { data, pos: 0 }
    }

    /// The number of bits left.
    pub fn bits_remaining(&self) -> (r: usize)
        ensures
            r == self@.len(),
    {
        proof {
            use_type_invariant(self);
            bits::lemma_bytes_len(self.data@);
        }
        self.data.len() * 8 - self.pos
    }

    /// The number of bits delivered so far.
    pub fn bit_position(&self) -> (r: usize)
        ensures
            r == self.consumed(),
    {
        self.pos
    }

    /// The bit at absolute position `at`.
    fn bit_at(&self, at: usize) -> (r: bool)
        requires
            at < 8 * self.data@.len(),
            8 * self.data@.len() <= usize::MAX,
        ensures
            bits::bytes(self.data@).len() == 8 * self.data@.len(),
            r == bits::bytes(self.data@)[at as int],
    {
        let byte: u8 = self.data[at / 8];
        let shift: u8 = 7 - (at % 8) as u8;
        let shifted: u8 = byte >> shift;
        proof {
            let i = at as int / 8;
            bits::lemma_bytes_byte(self.data@, i);
            bits::lemma_uint_index(byte as nat, 8, at as int % 8);
            vstd::bits::lemma_u8_shr_is_div(byte, shift);
            assert(shifted & 1 == shifted % 2) by (bit_vector);
            assert(bits::bytes(self.data@)[at as int] == bits::bytes(self.data@).subrange(
                8 * i,
                8 * i + 8,
            )[at as int % 8]);
        }
        shifted & 1 == 1
    }

    /// One bit.
    pub fn read_bit(&mut self) -> (r: Result<bool>)
        ensures
            ({
                let (v, c) = old(self).cursor().flag();
                &&& final(self)@ == c.bits
                &&& match r {
                    Ok(x) => c.fault is None && x == v,
                    Err(e) => c.fault == Some(e@),
                }
            }),
            final(self).consumed() == old(self).consumed() + if r is Ok { 1int } else { 0 },
            final(self).consumed() == old(self).position_before(final(self)@),
    {
        proof {
            reveal(Cursor::flag);
            use_type_invariant(&*self);
            bits::lemma_bytes_len(self.data@);
        }
        let left: usize = self.bits_remaining();
        if left < 1 {
            return Err(
                Error::Bitstream(
                    BitstreamError::UnexpectedEof { needed_bits: 1, available_bits: left },
                ),
            );
        }
        let bit: bool = self.bit_at(self.pos);
        self.pos = self.pos + 1;
        proof {
            assert(self@ =~= old(self)@.skip(1));
        }
        Ok(bit)
    }

    /// An unsigned integer of `n` bits.
    pub fn read_bits(&mut self, n: usize) -> (r: Result<u64>)
        ensures
            n > 64 ==> {
                &&& r matches Err(e)
                &&& e@ == ErrorView::Bitstream(BitstreamError::InvalidBitCount(n))
                &&& final(self)@ == old(self)@
            },
            n <= 64 ==> {
                let (v, c) = old(self).cursor().read(n as nat);
                &&& final(self)@ == c.bits
                &&& match r {
                    Ok(x) => c.fault is None && x == v && x < pow2(n as nat),
                    Err(e) => c.fault == Some(e@),
                }
            },
            final(self).consumed() == old(self).consumed() + if r is Ok { n as int } else { 0 },
            final(self).consumed() == old(self).position_before(final(self)@),
    {
        if n > 64 {
            return Err(Error::Bitstream(BitstreamError::InvalidBitCount(n)));
        }
        proof {
            reveal(Cursor::read);
            use_type_invariant(&*self);
            bits::lemma_bytes_len(self.data@);
        }
        let left: usize = self.bits_remaining();
        if left < n {
            return Err(
                Error::Bitstream(
                    BitstreamError::UnexpectedEof { needed_bits: n, available_bits: left },
                ),
            );
        }
        let start: usize = self.pos;
        let ghost all = bits::bytes(self.data@);
        let mut acc: u64 = 0;
        let mut i: usize = 0;
        proof {
            lemma2_to64();
            bits::lemma_empty();
            assert(all.subrange(start as int, start as int) =~= Seq::<bool>::empty());
        }
        while i < n
            invariant
                i <= n <= 64,
                start == self.pos,
                *self == *old(self),
                all == bits::bytes(self.data@),
                all.len() == 8 * self.data@.len(),
                8 * self.data@.len() <= usize::MAX,
                start + n <= all.len(),
                acc == bits::value(all.subrange(start as int, start + i)),
                acc < pow2(i as nat),
                acc == 0 || i > 0,
            decreases n - i,
        {
            let bit: bool = self.bit_at(start + i);
            proof {
                let s = all.subrange(start as int, start + i + 1);
                assert(s =~= all.subrange(start as int, start + i).push(bit));
                bits::lemma_value_push(all.subrange(start as int, start + i), bit);
                lemma_pow2_unfold((i + 1) as nat);
                if i < 63 {
                    lemma_pow2_strictly_increases((i + 1) as nat, 64);
                }
                lemma2_to64_rest();
                bits::lemma_value_bound(s);
            }
            acc = acc * 2 + if bit { 1 } else { 0 };
            i += 1;
        }
        self.pos = start + n;
        proof {
            assert(self@ =~= old(self)@.skip(n as int));
            assert(old(self)@.take(n as int) =~= all.subrange(start as int, start + n));
        }
        Ok(acc)
    }

    /// An unsigned integer of at most eight bits.
    pub fn read_u8(&mut self, n: usize) -> (r: Result<u8>)
        requires
            n <= 8,
        ensures
            ({
                let (v, c) = old(self).cursor().read(n as nat);
                &&& final(self)@ == c.bits
                &&& match r {
                    Ok(x) => c.fault is None && x == v && x < pow2(n as nat),
                    Err(e) => c.fault == Some(e@),
                }
            }),
            final(self).consumed() == old(self).consumed() + if r is Ok { n as int } else { 0 },
            final(self).consumed() == old(self).position_before(final(self)@),
    {
        let v: u64 = self.read_bits(n)?;
        proof {
            lemma2_to64();
            if n < 8 {
                lemma_pow2_strictly_increases(n as nat, 8);
            }
        }
        Ok(v as u8)
    }

    /// An unsigned integer of at most sixteen bits.
    pub fn read_u16(&mut self, n: usize) -> (r: Result<u16>)
        requires
            n <= 16,
        ensures
            ({
                let (v, c) = old(self).cursor().read(n as nat);
                &&& final(self)@ == c.bits
                &&& match r {
                    Ok(x) => c.fault is None && x == v && x < pow2(n as nat),
                    Err(e) => c.fault == Some(e@),
                }
            }),
            final(self).consumed() == old(self).consumed() + if r is Ok { n as int } else { 0 },
            final(self).consumed() == old(self).position_before(final(self)@),
    {
        let v: u64 = self.read_bits(n)?;
        proof {
            lemma2_to64();
            if n < 16 {
                lemma_pow2_strictly_increases(n as nat, 16);
            }
        }
        Ok(v as u16)
    }

    /// An unsigned integer of at most thirty-two bits.
    pub fn read_u32(&mut self, n: usize) -> (r: Result<u32>)
        requires
            n <= 32,
        ensures
            ({
                let (v, c) = old(self).cursor().read(n as nat);
                &&& final(self)@ == c.bits
                &&& match r {
                    Ok(x) => c.fault is None && x == v && x < pow2(n as nat),
                    Err(e) => c.fault == Some(e@),
                }
            }),
            final(self).consumed() == old(self).consumed() + if r is Ok { n as int } else { 0 },
            final(self).consumed() == old(self).position_before(final(self)@),
    {
        let v: u64 = self.read_bits(n)?;
        proof {
            lemma2_to64();
            lemma2_to64_rest();
            if n < 32 {
                lemma_pow2_strictly_increases(n as nat, 32);
            }
        }
        Ok(v as u32)
    }

    /// Passes over `n` bits.
    pub fn skip_bits(&mut self, n: usize) -> (r: Result<()>)
        ensures
            n <= old(self)@.len() ==> r is Ok && final(self)@ == old(self)@.skip(n as int),
            n > old(self)@.len() ==> {
                &&& r matches Err(e)
                &&& e@ == eof(n as nat, old(self)@.len())
                &&& final(self)@ == old(self)@
            },
            final(self).consumed() == old(self).consumed() + if r is Ok { n as int } else { 0 },
            final(self).consumed() == old(self).position_before(final(self)@),
    {
        proof {
            use_type_invariant(&*self);
            bits::lemma_bytes_len(self.data@);
        }
        let left: usize = self.bits_remaining();
        if left < n {
            return Err(
                Error::Bitstream(
                    BitstreamError::UnexpectedEof { needed_bits: n, available_bits: left },
                ),
            );
        }
        self.pos = self.pos + n;
        proof {
            assert(self@ =~= old(self)@.skip(n as int));
        }
        Ok(())
    }
}

impl<'a> View for BitReader<'a> {
    type V = Seq<bool>;

    closed spec fn view(&self) -> Seq<bool> {
        bits::bytes(self.data@).skip(self.pos as int)
    }
}

impl<'a> Clone for BitReader<'a> {
    fn clone(&self) -> (r: Self)
        ensures
            r@ == self@,
            r.consumed() == self.consumed(),
    {
        proof {
            use_type_invariant(self);
        }
        BitReader { data: self.data, pos: self.pos }
    }
}

/// A writer into a growing byte buffer.
pub struct BitWriter {
    whole: Vec<u8>,
    partial: u8,
    filled: u8,
}

impl View for BitWriter {
    type V = Seq<bool>;

    closed spec fn view(&self) -> Seq<bool> {
        bits::bytes(self.whole@) + bits::uint(self.partial as nat, self.filled as nat)
    }
}

impl BitWriter {
    #[verifier::type_invariant]
    closed spec fn inv(self) -> bool {
        &&& self.filled < 8
        &&& self.partial < pow2(self.filled as nat)
    }

    pub fn new() -> (r: Self)
        ensures
            r@ == Seq::<bool>::empty(),
    {
        proof {
            lemma2_to64();
            bits::lemma_empty();
        }
        let r = BitWriter { whole: Vec::new(), partial: 0, filled: 0 };
        assert(r@ =~= Seq::<bool>::empty());
        r
    }

    /// A writer that expects to hold about `bytes` bytes.
    pub fn with_capacity(bytes: usize) -> (r: Self)
        ensures
            r@ == Seq::<bool>::empty(),
    {
        proof {
            lemma2_to64();
            bits::lemma_empty();
        }
        let r = BitWriter { whole: Vec::with_capacity(bytes), partial: 0, filled: 0 };
        assert(r@ =~= Seq::<bool>::empty());
        r
    }

    /// Drops everything written so far.
    pub fn reset(&mut self)
        ensures
            final(self)@ == Seq::<bool>::empty(),
    {
        *self = BitWriter::new();
    }

    /// The number of bits written so far.
    pub fn bits_written(&self) -> (r: usize)
        requires
            self@.len() <= usize::MAX,
        ensures
            r == self@.len(),
    {
        proof {
            bits::lemma_bytes_len(self.whole@);
            bits::lemma_uint_len(self.partial as nat, self.filled as nat);
        }
        self.whole.len() * 8 + self.filled as usize
    }

    pub fn write_bit(&mut self, bit: bool)
        ensures
            final(self)@ == old(self)@ + bits::bit(bit),
    {
        proof {
            use_type_invariant(&*self);
            lemma2_to64();
            lemma_pow2_unfold((self.filled + 1) as nat);
            if self.filled < 7 {
                lemma_pow2_strictly_increases(self.filled as nat, 7);
            }
        }
        let next: u8 = self.partial * 2 + if bit { 1 } else { 0 };
        proof {
            bits::lemma_uint_push(self.partial as nat, self.filled as nat, bit);
            bits::lemma_empty();
        }
        if self.filled == 7 {
            let mut whole: Vec<u8> = Vec::new();
            std::mem::swap(&mut whole, &mut self.whole);
            proof {
                bits::lemma_bytes_push(whole@, next);
            }
            whole.push(next);
            self.partial = 0;
            self.filled = 0;
            self.whole = whole;
            assert(self@ =~= old(self)@ + bits::bit(bit));
        } else {
            self.filled = self.filled + 1;
            self.partial = next;
            assert(self@ =~= old(self)@ + bits::bit(bit));
        }
    }

    /// The low `n` bits of `v`.
    pub fn write_bits(&mut self, v: u64, n: usize)
        requires
            n <= 64,
        ensures
            final(self)@ == old(self)@ + bits::uint(v as nat, n as nat),
    {
        let mut i: usize = 0;
        assert(self@ =~= old(self)@ + bits::uint(v as nat, n as nat).take(0));
        while i < n
            invariant
                i <= n <= 64,
                self@ == old(self)@ + bits::uint(v as nat, n as nat).take(i as int),
            decreases n - i,
        {
            let shift: u64 = (n - 1 - i) as u64;
            let shifted: u64 = v >> shift;
            proof {
                bits::lemma_uint_index(v as nat, n as nat, i as int);
                vstd::bits::lemma_u64_shr_is_div(v, shift);
                assert(shifted & 1 == shifted % 2) by (bit_vector);
            }
            self.write_bit(shifted & 1 == 1);
            proof {
                assert(self@ =~= old(self)@ + bits::uint(v as nat, n as nat).take(i + 1));
            }
            i += 1;
        }
        proof {
            bits::lemma_uint_len(v as nat, n as nat);
            assert(bits::uint(v as nat, n as nat).take(n as int) =~= bits::uint(
                v as nat,
                n as nat,
            ));
        }
    }

    /// The low `n` bits of `v`.
    pub fn write_u8(&mut self, v: u8, n: usize)
        requires
            n <= 8,
        ensures
            final(self)@ == old(self)@ + bits::uint(v as nat, n as nat),
    {
        self.write_bits(v as u64, n);
    }

    /// The low `n` bits of `v`.
    pub fn write_u16(&mut self, v: u16, n: usize)
        requires
            n <= 16,
        ensures
            final(self)@ == old(self)@ + bits::uint(v as nat, n as nat),
    {
        self.write_bits(v as u64, n);
    }

    /// The low `n` bits of `v`.
    pub fn write_u32(&mut self, v: u32, n: usize)
        requires
            n <= 32,
        ensures
            final(self)@ == old(self)@ + bits::uint(v as nat, n as nat),
    {
        self.write_bits(v as u64, n);
    }

    /// A run of bytes, at whatever bit position the writer stands.
    pub fn write_bytes(&mut self, data: &[u8])
        ensures
            final(self)@ == old(self)@ + bits::bytes(data@),
    {
        let mut i: usize = 0;
        assert(data@.take(0) =~= Seq::<u8>::empty());
        proof {
            bits::lemma_empty();
        }
        assert(self@ =~= old(self)@ + bits::bytes(data@.take(0)));
        while i < data.len()
            invariant
                i <= data@.len(),
                self@ == old(self)@ + bits::bytes(data@.take(i as int)),
            decreases data@.len() - i,
        {
            self.write_u8(data[i], 8);
            proof {
                bits::lemma_bytes_push(data@.take(i as int), data@[i as int]);
                assert(data@.take(i as int).push(data@[i as int]) =~= data@.take(i + 1));
                assert(self@ =~= old(self)@ + bits::bytes(data@.take(i + 1)));
            }
            i += 1;
        }
        assert(data@.take(i as int) =~= data@);
    }

    /// Zero bits up to the next byte boundary.
    pub fn byte_align_zero(&mut self)
        ensures
            final(self)@ == bits::padded(old(self)@),
    {
        self.align();
    }

    fn align(&mut self)
        ensures
            final(self)@ == bits::padded(old(self)@),
            final(self)@ == bits::bytes(final(self).whole@),
    {
        proof {
            use_type_invariant(&*self);
            bits::lemma_bytes_len(self.whole@);
            bits::lemma_uint_len(self.partial as nat, self.filled as nat);
        }
        let ghost start = self@;
        let free: u8 = if self.filled == 0 {
            0
        } else {
            8 - self.filled
        };
        assert(free == bits::padding(start.len()));
        let mut i: u8 = 0;
        assert(self@ =~= start + bits::zeros(0));
        while i < free
            invariant
                i <= free,
                self@ == start + bits::zeros(i as nat),
            decreases free - i,
        {
            self.write_bit(false);
            i += 1;
            assert(self@ =~= start + bits::zeros(i as nat));
        }
        proof {
            use_type_invariant(&*self);
            bits::lemma_bytes_len(self.whole@);
            bits::lemma_uint_len(self.partial as nat, self.filled as nat);
            assert(self@.len() == start.len() + free);
            assert((start.len() + free) % 8 == 0);
            assert(self.filled == 0);
            assert(self@ =~= bits::bytes(self.whole@));
        }
    }

    /// Pads to a byte boundary and returns the bytes.
    pub fn finalize(&mut self) -> (r: &[u8])
        ensures
            final(self)@ == bits::padded(old(self)@),
            bits::bytes(r@) == bits::padded(old(self)@),
    {
        self.align();
        self.whole.as_slice()
    }

    /// The whole bytes written so far.
    pub fn as_bytes(&self) -> (r: &[u8])
        ensures
            bits::bytes(r@) == self@.take(8 * (self@.len() as int / 8)),
    {
        proof {
            use_type_invariant(self);
            bits::lemma_bytes_len(self.whole@);
            bits::lemma_uint_len(self.partial as nat, self.filled as nat);
            assert(self@.take(8 * (self@.len() as int / 8)) =~= bits::bytes(self.whole@));
        }
        self.whole.as_slice()
    }

    /// Pads to a byte boundary and gives the bytes away.
    pub fn into_bytes(self) -> (r: Vec<u8>)
        ensures
            bits::bytes(r@) == bits::padded(self@),
    {
        let mut this = self;
        this.align();
        this.whole
    }
}

} // verus!
