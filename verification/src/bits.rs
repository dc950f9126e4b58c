//! Bit strings as mathematical sequences.
//!
//! A bit string is a `Seq<bool>`, first transmitted bit first. Every field of
//! every format in this crate is a big-endian unsigned integer of a stated
//! width, so two functions carry the whole model: [`uint`] writes a number as
//! a bit string and [`value`] reads one back.

use vstd::arithmetic::power2::*;
use vstd::prelude::*;

verus! {

/// The low `n` bits of `v`, most significant first.
#[verifier::opaque]
pub open spec fn uint(v: nat, n: nat) -> Seq<bool>
    decreases n,
{
    if n == 0 {
        Seq::empty()
    } else {
        uint(v / 2, (n - 1) as nat).push(v % 2 == 1)
    }
}

/// The number a bit string denotes.
#[verifier::opaque]
pub open spec fn value(s: Seq<bool>) -> nat
    decreases s.len(),
{
    if s.len() == 0 {
        0
    } else {
        2 * value(s.drop_last()) + if s.last() { 1nat } else { 0nat }
    }
}

/// The bits of a byte string.
#[verifier::opaque]
pub open spec fn bytes(b: Seq<u8>) -> Seq<bool>
    decreases b.len(),
{
    if b.len() == 0 {
        Seq::empty()
    } else {
        bytes(b.drop_last()) + uint(b.last() as nat, 8)
    }
}

/// The whole bytes of a bit string.
pub open spec fn whole_bytes(s: Seq<bool>) -> Seq<u8> {
    Seq::new(s.len() / 8, |i: int| value(s.subrange(8 * i, 8 * i + 8)) as u8)
}

/// A single bit.
pub open spec fn bit(b: bool) -> Seq<bool> {
    seq![b]
}

/// A field of `n` bits that holds `v`, followed by `rest`.
#[verifier::opaque]
pub open spec fn field(v: nat, n: nat, rest: Seq<bool>) -> Seq<bool> {
    uint(v, n) + rest
}

/// A one-bit field, followed by `rest`.
#[verifier::opaque]
pub open spec fn flag(b: bool, rest: Seq<bool>) -> Seq<bool> {
    bit(b) + rest
}

/// A field that is there only if `present` says so, followed by `rest`.
pub open spec fn field_if(present: bool, v: nat, n: nat, rest: Seq<bool>) -> Seq<bool> {
    if present {
        field(v, n, rest)
    } else {
        rest
    }
}

/// `n` zero bits.
pub open spec fn zeros(n: nat) -> Seq<bool> {
    Seq::new(n, |i: int| false)
}

/// The number of zero bits that bring `n` up to a whole number of bytes.
pub open spec fn padding(n: nat) -> nat {
    ((8 - n % 8) % 8) as nat
}

/// `s` brought up to a whole number of bytes with zero bits.
pub open spec fn padded(s: Seq<bool>) -> Seq<bool> {
    s + zeros(padding(s.len()))
}

pub(crate) proof fn lemma_uint_len(v: nat, n: nat)
    ensures
        uint(v, n).len() == n,
    decreases n,
{
    reveal(uint);
    if n > 0 {
        lemma_uint_len(v / 2, (n - 1) as nat);
    }
}

pub broadcast proof fn broadcast_uint_len(v: nat, n: nat)
    ensures
        (#[trigger] uint(v, n)).len() == n,
{
    lemma_uint_len(v, n);
}

/// A field one bit longer ends in one more bit.
pub(crate) proof fn lemma_uint_push(v: nat, n: nat, bit: bool)
    ensures
        uint(2 * v + if bit { 1nat } else { 0 }, n + 1) == uint(v, n).push(bit),
{
    reveal(uint);
}

pub(crate) proof fn lemma_value_push(s: Seq<bool>, bit: bool)
    ensures
        value(s.push(bit)) == 2 * value(s) + if bit { 1nat } else { 0 },
{
    reveal(value);
    assert(s.push(bit).drop_last() =~= s);
}

pub(crate) proof fn lemma_empty()
    ensures
        forall|v: nat| #[trigger] uint(v, 0) == Seq::<bool>::empty(),
        value(Seq::empty()) == 0,
        bytes(Seq::empty()) == Seq::<bool>::empty(),
{
    reveal(uint);
    reveal(value);
    reveal(bytes);
}

pub(crate) proof fn lemma_value_bound(s: Seq<bool>)
    ensures
        value(s) < pow2(s.len()),
    decreases s.len(),
{
    reveal(value);
    if s.len() == 0 {
        lemma2_to64();
    } else {
        lemma_value_bound(s.drop_last());
        lemma_pow2_unfold(s.len());
    }
}

/// Writing a number in `n` bits and reading it back keeps its low `n` bits.
pub(crate) proof fn lemma_value_of_uint(v: nat, n: nat)
    ensures
        value(uint(v, n)) == v % pow2(n),
    decreases n,
{
    reveal(uint);
    reveal(value);
    if n == 0 {
        lemma2_to64();
    } else {
        let half = v / 2;
        lemma_value_of_uint(half, (n - 1) as nat);
        lemma_uint_len(half, (n - 1) as nat);
        assert(uint(v, n).drop_last() == uint(half, (n - 1) as nat));
        lemma_pow2_unfold(n);
        lemma_pow2_pos((n - 1) as nat);
        let m = pow2((n - 1) as nat) as int;
        let q = (half as int) / m;
        let r = (half as int) % m;
        vstd::arithmetic::div_mod::lemma_fundamental_div_mod(half as int, m);
        assert(v as int == 2 * (m * q + r) + v as int % 2);
        assert(2 * (m * q + r) == q * (2 * m) + 2 * r) by (nonlinear_arith);
        vstd::arithmetic::div_mod::lemma_fundamental_div_mod_converse(
            v as int,
            2 * m,
            q,
            2 * r + v as int % 2,
        );
    }
}

pub(crate) proof fn lemma_value_of_uint_exact(v: nat, n: nat)
    requires
        v < pow2(n),
    ensures
        value(uint(v, n)) == v,
{
    lemma_value_of_uint(v, n);
    vstd::arithmetic::div_mod::lemma_small_mod(v, pow2(n));
}

/// Reading a bit string as a number and writing the number back is the
/// identity.
pub(crate) proof fn lemma_uint_of_value(s: Seq<bool>)
    ensures
        uint(value(s), s.len()) == s,
    decreases s.len(),
{
    reveal(uint);
    reveal(value);
    if s.len() > 0 {
        lemma_uint_of_value(s.drop_last());
        assert(uint(value(s), s.len()) =~= s.drop_last().push(s.last()));
        assert(s.drop_last().push(s.last()) =~= s);
    } else {
        assert(uint(value(s), s.len()) =~= s);
    }
}

/// Only the low `n` bits of a number reach an `n`-bit field.
pub(crate) proof fn lemma_uint_mod(v: nat, n: nat)
    ensures
        uint(v, n) == uint(v % pow2(n), n),
{
    lemma_value_of_uint(v, n);
    lemma_uint_len(v, n);
    lemma_uint_of_value(uint(v, n));
}

pub(crate) proof fn lemma_value_concat(a: Seq<bool>, b: Seq<bool>)
    ensures
        value(a + b) == value(a) * pow2(b.len()) + value(b),
    decreases b.len(),
{
    reveal(value);
    if b.len() == 0 {
        assert(a + b =~= a);
        lemma2_to64();
        assert(value(a) * pow2(0) == value(a)) by (nonlinear_arith)
            requires
                pow2(0) == 1,
        ;
    } else {
        assert((a + b).drop_last() =~= a + b.drop_last());
        assert((a + b).last() == b.last());
        lemma_value_concat(a, b.drop_last());
        lemma_pow2_unfold(b.len());
        let m = pow2((b.len() - 1) as nat);
        assert(2 * (value(a) * m) == value(a) * (2 * m)) by (nonlinear_arith);
    }
}

/// Bit `i` of an `n`-bit field, counted from the front.
pub(crate) proof fn lemma_uint_index(v: nat, n: nat, i: int)
    requires
        0 <= i < n,
    ensures
        uint(v, n).len() == n,
        uint(v, n)[i] == ((v / pow2((n - 1 - i) as nat)) % 2 == 1),
    decreases n,
{
    reveal(uint);
    lemma_uint_len(v, n);
    if i == n - 1 {
        lemma2_to64();
        lemma_uint_len(v / 2, (n - 1) as nat);
        assert(v / pow2(0) == v) by (nonlinear_arith)
            requires
                pow2(0) == 1,
        ;
    } else {
        lemma_uint_index(v / 2, (n - 1) as nat, i);
        lemma_uint_len(v / 2, (n - 1) as nat);
        let k = (n - 2 - i) as nat;
        lemma_pow2_unfold(k + 1);
        lemma_pow2_pos(k);
        vstd::arithmetic::div_mod::lemma_div_denominator(v as int, 2, pow2(k) as int);
    }
}

pub(crate) proof fn lemma_bytes_len(b: Seq<u8>)
    ensures
        bytes(b).len() == 8 * b.len(),
    decreases b.len(),
{
    reveal(bytes);
    if b.len() > 0 {
        lemma_bytes_len(b.drop_last());
        lemma_uint_len(b.last() as nat, 8);
    }
}

pub(crate) proof fn lemma_bytes_push(b: Seq<u8>, x: u8)
    ensures
        bytes(b.push(x)) == bytes(b) + uint(x as nat, 8),
{
    reveal(bytes);
    assert(b.push(x).drop_last() =~= b);
}

pub(crate) proof fn lemma_bytes_concat(a: Seq<u8>, b: Seq<u8>)
    ensures
        bytes(a + b) == bytes(a) + bytes(b),
    decreases b.len(),
{
    reveal(bytes);
    if b.len() == 0 {
        assert(a + b =~= a);
        assert(bytes(a) + bytes(b) =~= bytes(a));
    } else {
        assert((a + b).drop_last() =~= a + b.drop_last());
        lemma_bytes_concat(a, b.drop_last());
        assert(bytes(a + b) =~= bytes(a) + bytes(b));
    }
}

/// Byte `i` of a byte string occupies eight bits from bit `8 * i`.
pub(crate) proof fn lemma_bytes_byte(b: Seq<u8>, i: int)
    requires
        0 <= i < b.len(),
    ensures
        bytes(b).len() == 8 * b.len(),
        bytes(b).subrange(8 * i, 8 * i + 8) == uint(b[i] as nat, 8),
    decreases b.len(),
{
    reveal(bytes);
    lemma_bytes_len(b);
    lemma_bytes_len(b.drop_last());
    lemma_uint_len(b.last() as nat, 8);
    if i == b.len() - 1 {
        assert(bytes(b).subrange(8 * i, 8 * i + 8) =~= uint(b[i] as nat, 8));
    } else {
        lemma_bytes_byte(b.drop_last(), i);
        assert(bytes(b).subrange(8 * i, 8 * i + 8) =~= bytes(b.drop_last()).subrange(
            8 * i,
            8 * i + 8,
        ));
    }
}

/// A byte string is determined by its bits.
pub proof fn law_bits_determine_bytes(a: Seq<u8>, b: Seq<u8>)
    requires
        bytes(a) == bytes(b),
    ensures
        a == b,
{
    lemma_bytes_len(a);
    lemma_bytes_len(b);
    lemma2_to64();
    assert forall|i: int| 0 <= i < a.len() implies a[i] == b[i] by {
        lemma_bytes_byte(a, i);
        lemma_bytes_byte(b, i);
        lemma_value_of_uint_exact(a[i] as nat, 8);
        lemma_value_of_uint_exact(b[i] as nat, 8);
    }
    assert(a =~= b);
}

/// The whole bytes of a byte string's bits are that byte string, with or
/// without a few bits behind it.
pub(crate) proof fn lemma_whole_bytes(b: Seq<u8>, more: Seq<bool>)
    requires
        more.len() < 8,
    ensures
        whole_bytes(bytes(b) + more) == b,
{
    lemma_bytes_len(b);
    lemma2_to64();
    let s = bytes(b) + more;
    assert forall|i: int| 0 <= i < b.len() implies whole_bytes(s)[i] == b[i] by {
        lemma_bytes_byte(b, i);
        assert(s.subrange(8 * i, 8 * i + 8) =~= bytes(b).subrange(8 * i, 8 * i + 8));
        lemma_value_of_uint_exact(b[i] as nat, 8);
    }
    assert(whole_bytes(s) =~= b);
}

pub broadcast proof fn lemma_append_field(w: Seq<bool>, v: nat, n: nat, rest: Seq<bool>)
    ensures
        #[trigger] (w + field(v, n, rest)) == (w + uint(v, n)) + rest,
{
    reveal(field);
    assert(w + (uint(v, n) + rest) =~= (w + uint(v, n)) + rest);
}

pub broadcast proof fn lemma_append_flag(w: Seq<bool>, b: bool, rest: Seq<bool>)
    ensures
        #[trigger] (w + flag(b, rest)) == (w + bit(b)) + rest,
{
    reveal(flag);
    assert(w + (bit(b) + rest) =~= (w + bit(b)) + rest);
}

pub broadcast proof fn lemma_append_nothing(w: Seq<bool>)
    ensures
        #[trigger] (w + Seq::<bool>::empty()) == w,
{
    assert(w + Seq::<bool>::empty() =~= w);
}

pub broadcast proof fn lemma_field_tail(v: nat, n: nat, rest: Seq<bool>, tail: Seq<bool>)
    ensures
        #[trigger] (field(v, n, rest) + tail) == field(v, n, rest + tail),
{
    reveal(field);
    assert((uint(v, n) + rest) + tail =~= uint(v, n) + (rest + tail));
}

pub broadcast proof fn lemma_flag_tail(b: bool, rest: Seq<bool>, tail: Seq<bool>)
    ensures
        #[trigger] (flag(b, rest) + tail) == flag(b, rest + tail),
{
    reveal(flag);
    assert((bit(b) + rest) + tail =~= bit(b) + (rest + tail));
}

pub broadcast proof fn lemma_nothing_tail(tail: Seq<bool>)
    ensures
        #[trigger] (Seq::<bool>::empty() + tail) == tail,
{
    assert(Seq::<bool>::empty() + tail =~= tail);
}

/// Fields written one by one make up their list.
pub broadcast group group_append {
    lemma_append_field,
    lemma_append_flag,
    lemma_append_nothing,
}

/// A tail goes behind the last field of a list.
pub broadcast group group_tail {
    lemma_field_tail,
    lemma_flag_tail,
    lemma_nothing_tail,
}

} // verus!
