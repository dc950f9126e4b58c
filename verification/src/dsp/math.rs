//! Fixed-point arithmetic.
//!
//! Saturating, normalized and fractional operations on 32-bit and 64-bit
//! integers. Every contract says which integer the result stands for: the
//! exact value where it fits, its nearest representable neighbour
//! ([`clamp32`], [`clamp64`]) for a saturating operation, its low bits
//! ([`wrap32`], [`wrap64`]) for a wrapping one. A right shift is a division
//! that rounds down.

use vstd::arithmetic::power2::*;
use vstd::prelude::*;

verus! {

pub const MAX_32: i32 = 0x7FFF_FFFF;

pub const MIN_32: i32 = -0x8000_0000;

pub const MAX_16: i16 = 0x7FFF;

pub const MIN_16: i16 = -0x8000;

pub const MAX_64: i64 = 0x7FFF_FFFF_FFFF_FFFF;

pub const MIN_64: i64 = -0x8000_0000_0000_0000;

/// The `i16` with the low sixteen bits of `x`.
pub open spec fn wrap16(x: int) -> int {
    (x + 0x8000) % 0x1_0000 - 0x8000
}

/// The `i32` with the low thirty-two bits of `x`.
pub open spec fn wrap32(x: int) -> int {
    (x + 0x8000_0000) % 0x1_0000_0000 - 0x8000_0000
}

/// The `i64` with the low sixty-four bits of `x`.
pub open spec fn wrap64(x: int) -> int {
    (x + 0x8000_0000_0000_0000) % 0x1_0000_0000_0000_0000 - 0x8000_0000_0000_0000
}

/// The `i32` nearest to `x`.
pub open spec fn clamp32(x: int) -> int {
    if x > MAX_32 {
        MAX_32 as int
    } else if x < MIN_32 {
        MIN_32 as int
    } else {
        x
    }
}

/// The `i64` nearest to `x`.
pub open spec fn clamp64(x: int) -> int {
    if x > MAX_64 {
        MAX_64 as int
    } else if x < MIN_64 {
        MIN_64 as int
    } else {
        x
    }
}

/// The shift that an operand stands for: its low eight bits.
pub open spec fn shift_of(b: i32) -> nat {
    (b as int % 256) as nat
}

/// A shift to the right is a division that rounds down.
pub(crate) proof fn lemma_shr64(x: i64, n: u32)
    requires
        n < 64,
    ensures
        (x >> n) == x as int / pow2(n as nat) as int,
    decreases n,
{
    lemma2_to64();
    if n == 0 {
        assert(x >> 0u32 == x) by (bit_vector);
        assert(x as int / 1 == x);
    } else {
        let m = (n - 1) as u32;
        lemma_shr64(x, m);
        let y = x >> m;
        assert(x >> n == y >> 1u32) by (bit_vector)
            requires
                0 < n < 64,
                m == n - 1,
                y == x >> m,
        ;
        assert(y >> 1u32 == y as int / 2) by (bit_vector);
        lemma_pow2_unfold(n as nat);
        lemma_pow2_pos(m as nat);
        lemma_half_quotient(x as int, pow2(m as nat) as int);
    }
}

/// Half of a quotient is the quotient by twice the divisor, all rounded down.
proof fn lemma_half_quotient(x: int, p: int)
    requires
        p > 0,
    ensures
        (x / p) / 2 == x / (2 * p),
{
    let q = x / p;
    let r = x % p;
    vstd::arithmetic::div_mod::lemma_fundamental_div_mod(x, p);
    let h = q / 2;
    let o = q % 2;
    assert(p * q + r == h * (2 * p) + (p * o + r)) by (nonlinear_arith)
        requires
            q == 2 * h + o,
    ;
    assert(0 <= p * o + r < 2 * p) by (nonlinear_arith)
        requires
            0 <= o <= 1,
            0 <= r < p,
    ;
    vstd::arithmetic::div_mod::lemma_fundamental_div_mod_converse(x, 2 * p, h, p * o + r);
}

/// A shift to the left is a multiplication, of which the low bits remain.
pub(crate) proof fn lemma_shl32(a: i32, n: u32)
    requires
        n < 32,
    ensures
        (a << n) == wrap32(a * pow2(n as nat)),
    decreases n,
{
    lemma2_to64();
    if n == 0 {
        assert(a << 0u32 == a) by (bit_vector);
    } else {
        let m = (n - 1) as u32;
        lemma_shl32(a, m);
        let y = a << m;
        assert(a << n == y << 1u32) by (bit_vector)
            requires
                0 < n < 32,
                m == n - 1,
                y == a << m,
        ;
        assert(y << 1u32 == (2 * y + 0x8000_0000) % 0x1_0000_0000 - 0x8000_0000) by (bit_vector);
        lemma_pow2_unfold(n as nat);
        let p = pow2(m as nat) as int;
        assert(a * (2 * p) == 2 * (a * p)) by (nonlinear_arith);
    }
}

/// A cast to `i32` keeps the low bits.
pub(crate) proof fn lemma_cast32(x: i64)
    ensures
        (x as i32) == wrap32(x as int),
{
    let r = x as i32;
    assert(r == (x + 0x8000_0000) % 0x1_0000_0000 - 0x8000_0000) by (bit_vector)
        requires
            r == x as i32,
    ;
}

proof fn lemma_shift_by_zero(a: int)
    ensures
        a * pow2(0) == a,
{
    lemma2_to64();
    assert(a * pow2(0) == a) by (nonlinear_arith)
        requires
            pow2(0) == 1,
    ;
}

/// The product of two 32-bit numbers is less than `2^62` in magnitude, or
/// equal to it.
proof fn lemma_product(a: int, b: int, m: int, n: int)
    requires
        -m <= a <= m,
        -n <= b <= n,
    ensures
        -(m * n) <= a * b <= m * n,
{
    assert(a * b <= m * n && a * b >= -(m * n)) by (nonlinear_arith)
        requires
            -m <= a <= m,
            -n <= b <= n,
    ;
}

/// The smaller of two.
pub fn min32(a: i32, b: i32) -> (r: i32)
    ensures
        r == if a < b {
            a
        } else {
            b
        },
{
    if a < b {
        a
    } else {
        b
    }
}

/// The larger of two.
pub fn max32(a: i32, b: i32) -> (r: i32)
    ensures
        r == if a > b {
            a
        } else {
            b
        },
{
    if a > b {
        a
    } else {
        b
    }
}

/// The high half.
pub fn extract16h(var: i32) -> (r: i16)
    ensures
        r == var as int / 65536,
{
    let r: i16 = (var >> 16) as i16;
    assert(r == var as int / 65536) by (bit_vector)
        requires
            r == (var >> 16) as i16,
    ;
    r
}

/// The low half.
pub fn extract16l(var: i32) -> (r: i16)
    ensures
        r == wrap16(var as int),
{
    let r: i16 = var as i16;
    assert(r == (var + 0x8000) % 0x1_0000 - 0x8000) by (bit_vector)
        requires
            r == var as i16,
    ;
    r
}

/// A number in the high half.
pub fn deposit16h_in32(var: i16) -> (r: i32)
    ensures
        r == var * 65536,
{
    (var as i32) * 65536
}

/// A number in the low half.
pub fn deposit16l_in32(var: i16) -> (r: i32)
    ensures
        r == var,
{
    var as i32
}

/// The low eight bits of a shift operand.
fn shift_bits(b: i32) -> (r: u32)
    ensures
        r == shift_of(b),
        r < 256,
{
    let r: u32 = (b & 0xFF) as u32;
    assert(r == b as int % 256 && r < 256) by (bit_vector)
        requires
            r == (b & 0xFF) as u32,
    ;
    r
}

/// A shift to the left by the low eight bits of `b`.
pub fn shl32(a: i32, b: i32) -> (r: i32)
    ensures
        r == if shift_of(b) > 31 {
            0
        } else {
            wrap32(a * pow2(shift_of(b)))
        },
{
    let shift: u32 = shift_bits(b);
    if shift > 31 {
        0
    } else {
        proof {
            lemma_shl32(a, shift);
        }
        a << shift
    }
}

/// A shift to the right by the low eight bits of `b`.
pub fn shr32(a: i32, b: i32) -> (r: i32)
    ensures
        r == a as int / pow2(shift_of(b)) as int,
{
    let shift: u32 = shift_bits(b);
    if shift >= 31 {
        proof {
            lemma2_to64();
            if shift > 31 {
                lemma_pow2_strictly_increases(31, shift as nat);
            }
            let p = pow2(shift as nat) as int;
            if a < 0 {
                vstd::arithmetic::div_mod::lemma_fundamental_div_mod_converse(
                    a as int,
                    p,
                    -1,
                    a + p,
                );
            } else {
                vstd::arithmetic::div_mod::lemma_basic_div(a as int, p);
            }
        }
        if a < 0 {
            -1
        } else {
            0
        }
    } else {
        proof {
            lemma_shr64(a as i64, shift);
            lemma_quotient(a as int, shift as nat);
        }
        ((a as i64) >> shift) as i32
    }
}

/// A quotient by a power of two lies between the dividend and zero.
proof fn lemma_quotient(a: int, n: nat)
    ensures
        a >= 0 ==> 0 <= a / pow2(n) as int <= a,
        a < 0 ==> a <= a / pow2(n) as int <= -1,
{
    lemma_pow2_pos(n);
    let p = pow2(n) as int;
    vstd::arithmetic::div_mod::lemma_fundamental_div_mod(a, p);
    let q = a / p;
    let m = a % p;
    assert(0 <= m < p);
    if a >= 0 {
        assert(0 <= q <= a) by (nonlinear_arith)
            requires
                a == p * q + m,
                0 <= m < p,
                p >= 1,
                a >= 0,
        ;
    } else {
        assert(a <= q <= -1) by (nonlinear_arith)
            requires
                a == p * q + m,
                0 <= m < p,
                p >= 1,
                a < 0,
        ;
    }
}

/// A saturating shift to the left; nothing for a shift that is not positive.
pub fn shl32_sat(a: i32, b: i32) -> (r: i32)
    ensures
        r == if b <= 0 {
            a as int
        } else {
            clamp32(a * pow2(b as nat))
        },
{
    if b <= 0 {
        return a;
    }
    let n: u32 = if b >= 31 {
        31
    } else {
        b as u32
    };
    proof {
        lemma2_to64();
        if b > 31 {
            lemma_pow2_strictly_increases(31, b as nat);
        }
        let p = pow2(b as nat) as int;
        if b >= 31 {
            assert(a > 0 ==> a * p >= p) by (nonlinear_arith)
                requires
                    p > 0,
            ;
            assert(a < 0 ==> a * p <= -p) by (nonlinear_arith)
                requires
                    p > 0,
            ;
        }
    }
    if b >= 31 {
        return if a > 0 {
            MAX_32
        } else if a < 0 {
            MIN_32
        } else {
            0
        };
    }
    proof {
        lemma2_to64();
        if n < 30 {
            lemma_pow2_strictly_increases(n as nat, 30);
        }
        vstd::bits::lemma_u64_shl_is_mul(1, n as u64);
        lemma_product(a as int, pow2(n as nat) as int, 0x8000_0000, 0x4000_0000);
    }
    let power: u64 = 1u64 << (n as u64);
    sat64_32((a as i64) * (power as i64))
}

/// A 64-bit number brought into the 32-bit range.
pub fn sat64_32(a: i64) -> (r: i32)
    ensures
        r == clamp32(a as int),
{
    if a >= MAX_32 as i64 {
        MAX_32
    } else if a <= MIN_32 as i64 {
        MIN_32
    } else {
        a as i32
    }
}

/// A shift to the left, to the right where `b` is negative.
pub fn shl32_dir(a: i32, b: i32) -> (r: i32)
    requires
        b > MIN_32,
    ensures
        b < 0 ==> r == a as int / pow2(shift_of((-b) as i32)) as int,
        b >= 0 && shift_of(b) <= 31 ==> r == wrap32(a * pow2(shift_of(b))),
        b >= 0 && shift_of(b) > 31 ==> r == 0,
{
    if b < 0 {
        shr32(a, -b)
    } else {
        shl32(a, b)
    }
}

/// A saturating shift to the left, a shift to the right where `b` is negative.
pub fn shl32_dir_sat(a: i32, b: i32) -> (r: i32)
    requires
        b > MIN_32,
    ensures
        b < 0 ==> r == a as int / pow2(shift_of((-b) as i32)) as int,
        b >= 0 ==> r == clamp32(a * pow2(b as nat)),
{
    proof {
        lemma_shift_by_zero(a as int);
    }
    if b < 0 {
        shr32(a, -b)
    } else {
        shl32_sat(a, b)
    }
}

/// A shift to the right, to the left where `b` is negative.
pub fn shr32_dir(a: i32, b: i32) -> (r: i32)
    requires
        b > MIN_32,
    ensures
        b >= 0 ==> r == a as int / pow2(shift_of(b)) as int,
        b < 0 && shift_of((-b) as i32) <= 31 ==> r == wrap32(a * pow2(shift_of((-b) as i32))),
        b < 0 && shift_of((-b) as i32) > 31 ==> r == 0,
{
    if b < 0 {
        shl32(a, -b)
    } else {
        shr32(a, b)
    }
}

/// A shift to the right, a saturating shift to the left where `b` is negative.
pub fn shr32_dir_sat(a: i32, b: i32) -> (r: i32)
    requires
        b > MIN_32,
    ensures
        b >= 0 ==> r == a as int / pow2(shift_of(b)) as int,
        b < 0 ==> r == clamp32(a * pow2((-b) as nat)),
{
    if b < 0 {
        shl32_sat(a, -b)
    } else {
        shr32(a, b)
    }
}

/// A quotient does not change once the divisor exceeds every 32-bit number.
proof fn lemma_far_shift(a: i32, n: nat)
    requires
        n >= 31,
    ensures
        a as int / pow2(n) as int == a as int / pow2(31) as int,
{
    lemma2_to64();
    if n > 31 {
        lemma_pow2_strictly_increases(31, n);
    }
    let p = pow2(n) as int;
    let q = pow2(31) as int;
    if a < 0 {
        vstd::arithmetic::div_mod::lemma_fundamental_div_mod_converse(a as int, p, -1, a + p);
        vstd::arithmetic::div_mod::lemma_fundamental_div_mod_converse(a as int, q, -1, a + q);
    } else {
        vstd::arithmetic::div_mod::lemma_basic_div(a as int, p);
        vstd::arithmetic::div_mod::lemma_basic_div(a as int, q);
    }
}

/// Like [`shr32_dir_sat`], for a shift to the right of any length.
pub fn shr32_dir_sat_limit(a: i32, b: i32) -> (r: i32)
    requires
        b > MIN_32,
    ensures
        b >= 0 ==> r == a as int / pow2(b as nat) as int,
        b < 0 ==> r == clamp32(a * pow2((-b) as nat)),
{
    if b < 0 {
        shl32_sat(a, -b)
    } else {
        proof {
            if b > 31 {
                lemma_far_shift(a, b as nat);
            }
        }
        let limited: i32 = min32(b, 31);
        shr32(a, limited)
    }
}

/// Like [`shl32_dir_sat`], for a shift to the right of any length.
pub fn shl32_dir_sat_limit(a: i32, b: i32) -> (r: i32)
    requires
        b > MIN_32,
    ensures
        b < 0 ==> r == a as int / pow2((-b) as nat) as int,
        b >= 0 ==> r == clamp32(a * pow2(b as nat)),
{
    proof {
        lemma_shift_by_zero(a as int);
    }
    if b < 0 {
        proof {
            if -b > 31 {
                lemma_far_shift(a, (-b) as nat);
            }
        }
        let limited: i32 = min32(-b, 31);
        shr32(a, limited)
    } else {
        shl32_sat(a, b)
    }
}

/// Wrapping addition.
pub fn add32(a: i32, b: i32) -> (r: i32)
    ensures
        r == wrap32(a + b),
{
    a.wrapping_add(b)
}

/// Wrapping subtraction.
pub fn sub32(a: i32, b: i32) -> (r: i32)
    ensures
        r == wrap32(a - b),
{
    a.wrapping_sub(b)
}

/// Saturating addition.
pub fn add32_sat(a: i32, b: i32) -> (r: i32)
    ensures
        r == clamp32(a + b),
{
    sat64_32(a as i64 + b as i64)
}

/// Saturating addition of three numbers.
pub fn add32_sat3(a: i32, b: i32, c: i32) -> (r: i32)
    ensures
        r == clamp32(a + b + c),
{
    let sum: i64 = (a as i64) + (b as i64) + (c as i64);
    sat64_32(sum)
}

/// Saturating subtraction.
pub fn sub32_sat(a: i32, b: i32) -> (r: i32)
    ensures
        r == clamp32(a - b),
{
    sat64_32(a as i64 - b as i64)
}

/// Whether a shift by `n` brings `m` into the upper half of the positive
/// 32-bit range.
pub open spec fn normalizes(m: int, n: int) -> bool {
    n >= 0 && 0x4000_0000 <= m * pow2(n as nat) < 0x8000_0000
}

/// A number has at most one normalizing shift.
pub proof fn law_normalizing_shift_is_unique(m: int, n: int, k: int)
    requires
        normalizes(m, n),
        normalizes(m, k),
    ensures
        n == k,
{
    lemma_pow2_pos(n as nat);
    lemma_pow2_pos(k as nat);
    if n < k {
        lemma_normalizes_later(m, n, k);
    }
    if k < n {
        lemma_normalizes_later(m, k, n);
    }
}

proof fn lemma_normalizes_later(m: int, n: int, k: int)
    requires
        normalizes(m, n),
        n < k,
    ensures
        m * pow2(k as nat) >= 0x8000_0000,
{
    let d = (k - n) as nat;
    lemma_pow2_adds(n as nat, d);
    lemma_pow2_unfold(d);
    lemma_pow2_pos((d - 1) as nat);
    let x = m * pow2(n as nat);
    let p = pow2(n as nat) as int;
    let e = pow2(d) as int;
    assert(m * (p * e) == (m * p) * e) by (nonlinear_arith);
    assert(x * e >= x * 2) by (nonlinear_arith)
        requires
            x >= 0,
            e >= 2,
    ;
}

/// The shift that normalizes a positive number.
fn normalizing_shift(m: i32) -> (r: i32)
    requires
        m > 0,
    ensures
        normalizes(m as int, r as int),
        0 <= r <= 30,
{
    let mut a: i64 = m as i64;
    let mut norm: i32 = 0;
    proof {
        lemma_shift_by_zero(m as int);
    }
    while a < 0x4000_0000
        invariant
            0 <= norm <= 30,
            m > 0,
            a == m * pow2(norm as nat),
            0 < a < 0x8000_0000,
        decreases 0x8000_0000 - a,
    {
        proof {
            lemma_pow2_unfold((norm + 1) as nat);
            let p = pow2(norm as nat) as int;
            assert(m * (2 * p) == 2 * (m * p)) by (nonlinear_arith);
            lemma2_to64();
            if norm == 30 {
                assert(m * p >= p) by (nonlinear_arith)
                    requires
                        m >= 1,
                        p > 0,
                ;
            }
        }
        a = a * 2;
        norm += 1;
    }
    norm
}

/// The number of shifts that normalize `a`: the redundant sign bits.
pub fn norm32(a: i32) -> (r: i32)
    ensures
        a == 0 || a == -1 ==> r == 31,
        a > 0 ==> normalizes(a as int, r as int),
        a < -1 ==> normalizes(-1 - a, r as int),
        0 <= r <= 31,
{
    if a == 0 || a == -1 {
        31
    } else if a < 0 {
        normalizing_shift(-1 - a)
    } else {
        normalizing_shift(a)
    }
}

/// Whether a shift of `a` to the left by `n` reads as a number in the upper
/// half of the positive range.
pub open spec fn reads_normalized(a: i32, n: nat) -> bool {
    wrap32(a * pow2(n)) >= 0x4000_0000
}

/// The first shift that brings `a` into the upper half of the positive range.
/// Minus a power of two has none.
pub fn pnorm32(a: i32) -> (r: i32)
    requires
        a == 0 || exists|n: nat| n <= 31 && #[trigger] reads_normalized(a, n),
    ensures
        a == 0 ==> r == 31,
        a != 0 ==> r >= 0 && reads_normalized(a, r as nat),
        a != 0 ==> forall|k: nat| k < r ==> !#[trigger] reads_normalized(a, k),
{
    if a == 0 {
        return 31;
    }
    let ghost n = choose|n: nat| n <= 31 && #[trigger] reads_normalized(a, n);
    let mut x: i32 = a;
    let mut norm: i32 = 0;
    proof {
        lemma_shift_by_zero(a as int);
    }
    while x < 0x4000_0000
        invariant
            0 <= norm <= n <= 31,
            x == wrap32(a * pow2(norm as nat)),
            reads_normalized(a, n),
            forall|k: nat| k < norm ==> !#[trigger] reads_normalized(a, k),
        decreases n - norm,
    {
        proof {
            assert(!reads_normalized(a, norm as nat));
            lemma_pow2_unfold((norm + 1) as nat);
            let p = pow2(norm as nat) as int;
            assert(a * (2 * p) == 2 * (a * p)) by (nonlinear_arith);
        }
        let y: i32 = x;
        x = x << 1;
        assert(x == (2 * y + 0x8000_0000) % 0x1_0000_0000 - 0x8000_0000) by (bit_vector)
            requires
                x == y << 1,
        ;
        norm += 1;
    }
    norm
}

/// The magnitude of `a`.
pub fn abs32(a: i32) -> (r: i32)
    requires
        a > MIN_32,
    ensures
        r == if a < 0 {
            -a
        } else {
            a as int
        },
{
    if a < 0 {
        -a
    } else {
        a
    }
}

/// The magnitude of `a`, saturated.
pub fn abs32_sat(a: i32) -> (r: i32)
    ensures
        r == clamp32(
            if a < 0 {
                -a
            } else {
                a as int
            },
        ),
{
    if a == MIN_32 {
        MAX_32
    } else if a < 0 {
        -a
    } else {
        a
    }
}

/// Minus `a`.
pub fn negate32(a: i32) -> (r: i32)
    requires
        a > MIN_32,
    ensures
        r == -a,
{
    -a
}

/// Minus `a`, saturated.
pub fn negate32_sat(a: i32) -> (r: i32)
    ensures
        r == clamp32(-a),
{
    if a == MIN_32 {
        MAX_32
    } else {
        -a
    }
}

/// The product of two 16-bit numbers.
pub fn mult16x16in32(a: i16, b: i16) -> (r: i32)
    ensures
        r == a * b,
{
    proof {
        lemma_product(a as int, b as int, 0x8000, 0x8000);
    }
    (a as i32) * (b as i32)
}

/// Twice the product, wrapped.
pub fn mult16x16in32_shl(a: i16, b: i16) -> (r: i32)
    ensures
        r == wrap32(2 * (a * b)),
{
    proof {
        lemma2_to64();
    }
    let product: i32 = mult16x16in32(a, b);
    assert(product * pow2(1) == 2 * product) by (nonlinear_arith)
        requires
            pow2(1) == 2,
    ;
    shl32(product, 1)
}

/// Twice the product, saturated.
pub fn mult16x16in32_shl_sat(a: i16, b: i16) -> (r: i32)
    ensures
        r == clamp32(2 * (a * b)),
{
    proof {
        lemma_product(a as int, b as int, 0x8000, 0x8000);
    }
    let product: i32 = (a as i32) * (b as i32);
    if product != 0x4000_0000 {
        product * 2
    } else {
        MAX_32
    }
}

/// The product of a 32-bit and a 16-bit number, as a 48-bit number.
fn product48(a: i32, b: i16) -> (r: i64)
    ensures
        r == a * b,
        -0x4000_0000_0000 <= r <= 0x4000_0000_0000,
{
    proof {
        lemma_product(a as int, b as int, 0x8000_0000, 0x8000);
    }
    (a as i64) * (b as i64)
}

/// The high 32 of the 48 bits of a product.
pub fn mult32x16in32(a: i32, b: i16) -> (r: i32)
    ensures
        r == (a * b) / 65536,
        -0x4000_0000 <= r <= 0x4000_0000,
{
    let temp: i64 = product48(a, b);
    proof {
        lemma2_to64();
        lemma_shr64(temp, 16);
    }
    (temp >> 16u32) as i32
}

/// Twice the high part, wrapped.
pub fn mult32x16in32_shl(a: i32, b: i16) -> (r: i32)
    ensures
        r == wrap32(2 * ((a * b) / 65536)),
{
    let high: i32 = mult32x16in32(a, b);
    proof {
        lemma_shl32(high, 1);
        lemma2_to64();
        assert(high * pow2(1) == 2 * high) by (nonlinear_arith)
            requires
                pow2(1) == 2,
        ;
    }
    high << 1u32
}

/// The product, saturated.
pub fn mult32x16in32_sat(a: i32, b: i16) -> (r: i32)
    ensures
        r == clamp32(a * b),
{
    let temp: i64 = product48(a, b);
    sat64_32(temp)
}

/// Twice the high part, saturated.
pub fn mult32x16in32_shl_sat(a: i32, b: i16) -> (r: i32)
    ensures
        r == clamp32(2 * ((a * b) / 65536)),
{
    proof {
        if !(a == MIN_32 && b == MIN_16) {
            assert(a * b <= 0x4000_0000_0000 - 0x8000) by (nonlinear_arith)
                requires
                    -0x8000_0000 <= a <= 0x7FFF_FFFF,
                    -0x8000 <= b <= 0x7FFF,
                    a > -0x8000_0000 || b > -0x8000,
            ;
            assert(a * b >= -0x4000_0000_0000) by (nonlinear_arith)
                requires
                    -0x8000_0000 <= a <= 0x7FFF_FFFF,
                    -0x8000 <= b <= 0x7FFF,
            ;
        }
    }
    if a == MIN_32 && b == MIN_16 {
        MAX_32
    } else {
        mult32x16in32_shl(a, b)
    }
}

/// The high part of the product with the high half of `b`.
pub fn mult32x16hin32(a: i32, b: i32) -> (r: i32)
    ensures
        r == (a * (b as int / 65536)) / 65536,
{
    mult32x16in32(a, extract16h(b))
}

/// Twice the high part of the product with the high half of `b`, wrapped.
pub fn mult32x16hin32_shl(a: i32, b: i32) -> (r: i32)
    ensures
        r == wrap32(2 * ((a * (b as int / 65536)) / 65536)),
{
    mult32x16in32_shl(a, extract16h(b))
}

/// Twice the high part of the product with the high half of `b`, saturated.
pub fn mult32x16h_in32_shl_sat(a: i32, b: i32) -> (r: i32)
    ensures
        r == clamp32(2 * ((a * (b as int / 65536)) / 65536)),
{
    mult32x16in32_shl_sat(a, extract16h(b))
}

/// The product of two 32-bit numbers.
pub fn mult32x32in64(a: i32, b: i32) -> (r: i64)
    ensures
        r == a * b,
        -0x4000_0000_0000_0000 <= r <= 0x4000_0000_0000_0000,
{
    proof {
        lemma_product(a as int, b as int, 0x8000_0000, 0x8000_0000);
    }
    (a as i64) * (b as i64)
}

/// The high half of a product.
pub fn mult32(a: i32, b: i32) -> (r: i32)
    ensures
        r == (a * b) / 0x1_0000_0000,
        -0x4000_0000 <= r <= 0x4000_0000,
{
    let temp: i64 = mult32x32in64(a, b);
    proof {
        lemma2_to64();
        lemma_shr64(temp, 32);
    }
    (temp >> 32u32) as i32
}

/// Twice the high half of a product, wrapped.
pub fn mult32_shl(a: i32, b: i32) -> (r: i32)
    ensures
        r == wrap32(2 * ((a * b) / 0x1_0000_0000)),
{
    let high: i32 = mult32(a, b);
    proof {
        lemma_shl32(high, 1);
        lemma2_to64();
        assert(high * pow2(1) == 2 * high) by (nonlinear_arith)
            requires
                pow2(1) == 2,
        ;
    }
    high << 1u32
}

/// Twice the high half of a product, saturated.
pub fn mult32_shl_sat(a: i32, b: i32) -> (r: i32)
    ensures
        r == clamp32(2 * ((a * b) / 0x1_0000_0000)),
{
    proof {
        if !(a == MIN_32 && b == MIN_32) {
            assert(a * b <= 0x4000_0000_0000_0000 - 0x8000_0000) by (nonlinear_arith)
                requires
                    -0x8000_0000 <= a <= 0x7FFF_FFFF,
                    -0x8000_0000 <= b <= 0x7FFF_FFFF,
                    a > -0x8000_0000 || b > -0x8000_0000,
            ;
            assert(a * b >= -0x4000_0000_0000_0000) by (nonlinear_arith)
                requires
                    -0x8000_0000 <= a <= 0x7FFF_FFFF,
                    -0x8000_0000 <= b <= 0x7FFF_FFFF,
            ;
        }
    }
    if a == MIN_32 && b == MIN_32 {
        MAX_32
    } else {
        mult32_shl(a, b)
    }
}

/// A product shifted to the right, of which the low bits remain.
pub fn mul32_sh(a: i32, b: i32, shift: u8) -> (r: i32)
    requires
        shift < 64,
    ensures
        r == wrap32((a * b) / pow2(shift as nat) as int),
{
    let temp: i64 = mult32x32in64(a, b);
    let shifted: i64 = temp >> (shift as u32);
    proof {
        lemma_shr64(temp, shift as u32);
        lemma_cast32(shifted);
    }
    shifted as i32
}

/// A product added, saturated.
pub fn mac16x16in32_sat(a: i32, b: i16, c: i16) -> (r: i32)
    ensures
        r == clamp32(a + b * c),
{
    add32_sat(a, mult16x16in32(b, c))
}

/// Twice a product added, wrapped.
pub fn mac16x16in32_shl(a: i32, b: i16, c: i16) -> (r: i32)
    ensures
        r == wrap32(a + 2 * (b * c)),
{
    add32(a, mult16x16in32_shl(b, c))
}

/// Twice a product, saturated, added, saturated.
pub fn mac16x16in32_shl_sat(a: i32, b: i16, c: i16) -> (r: i32)
    ensures
        r == clamp32(a + clamp32(2 * (b * c))),
{
    add32_sat(a, mult16x16in32_shl_sat(b, c))
}

/// A product subtracted, wrapped.
pub fn msu16x16in32(a: i32, b: i16, c: i16) -> (r: i32)
    ensures
        r == wrap32(a - b * c),
{
    sub32(a, mult16x16in32(b, c))
}

/// The high part of a product added, wrapped.
pub fn mac32x16in32(a: i32, b: i32, c: i16) -> (r: i32)
    ensures
        r == wrap32(a + (b * c) / 65536),
{
    a.wrapping_add(mult32x16in32(b, c))
}

/// Twice the high part of a product added, wrapped.
pub fn mac32x16in32_shl(a: i32, b: i32, c: i16) -> (r: i32)
    ensures
        r == wrap32(a + 2 * ((b * c) / 65536)),
{
    a.wrapping_add(mult32x16in32_shl(b, c))
}

/// Twice the high part of a product, saturated, added, saturated.
pub fn mac32x16in32_shl_sat(a: i32, b: i32, c: i16) -> (r: i32)
    ensures
        r == clamp32(a + clamp32(2 * ((b * c) / 65536))),
{
    add32_sat(a, mult32x16in32_shl_sat(b, c))
}

/// A product added to a 64-bit sum, wrapped.
pub fn mac32x32in64(sum: i64, a: i32, b: i32) -> (r: i64)
    ensures
        r == wrap64(sum + a * b),
{
    sum.wrapping_add(mult32x32in64(a, b))
}

/// A product added to a 64-bit sum, saturated.
pub fn mac32x32in64_dual(a: i32, b: i32, c: i64) -> (r: i64)
    ensures
        r == clamp64(c + a * b),
{
    add64_sat(c, mult32x32in64(a, b))
}

/// Wrapping addition.
pub fn add64(a: i64, b: i64) -> (r: i64)
    ensures
        r == wrap64(a + b),
{
    a.wrapping_add(b)
}

/// Wrapping subtraction.
pub fn sub64(a: i64, b: i64) -> (r: i64)
    ensures
        r == wrap64(a - b),
{
    a.wrapping_sub(b)
}

/// A 128-bit number brought into the 64-bit range.
fn sat128_64(a: i128) -> (r: i64)
    ensures
        r == clamp64(a as int),
{
    if a > MAX_64 as i128 {
        MAX_64
    } else if a < MIN_64 as i128 {
        MIN_64
    } else {
        a as i64
    }
}

/// Saturating addition.
pub fn add64_sat(a: i64, b: i64) -> (r: i64)
    ensures
        r == clamp64(a + b),
{
    sat128_64(a as i128 + b as i128)
}

/// Saturating subtraction.
pub fn sub64_sat(a: i64, b: i64) -> (r: i64)
    ensures
        r == clamp64(a - b),
{
    sat128_64(a as i128 - b as i128)
}

/// Long division in binary: `k` digits of `nr / dr`, behind the digits `q`, on
/// a remainder of thirty-two bits.
pub open spec fn long_division(nr: int, dr: int, q: int, k: nat) -> int
    decreases k,
{
    if k == 0 {
        q
    } else if nr >= dr {
        long_division((2 * (nr - dr)) % 0x1_0000_0000, dr, 2 * q + 1, (k - 1) as nat)
    } else {
        long_division((2 * nr) % 0x1_0000_0000, dr, 2 * q, (k - 1) as nat)
    }
}

/// Where the first digit is zero or one, the digits are those of the quotient.
pub(crate) proof fn lemma_long_division(nr: int, dr: int, q: int, k: nat)
    requires
        0 <= nr < 2 * dr <= 0x1_0000_0000,
    ensures
        long_division(nr, dr, q, k) == q * pow2(k) + (nr * pow2(k)) / (2 * dr),
    decreases k,
{
    lemma2_to64();
    if k == 0 {
        lemma_shift_by_zero(q);
        lemma_shift_by_zero(nr);
        vstd::arithmetic::div_mod::lemma_basic_div(nr, 2 * dr);
    } else {
        let j = (k - 1) as nat;
        let p = pow2(j) as int;
        lemma_pow2_unfold(k);
        lemma_pow2_pos(j);
        let bit: int = if nr >= dr {
            1
        } else {
            0
        };
        let next = 2 * (nr - dr * bit);
        assert(dr * bit == if nr >= dr {
            dr
        } else {
            0
        });
        lemma_long_division(next, dr, 2 * q + bit, j);
        assert((2 * q + bit) * p == q * (2 * p) + bit * p) by (nonlinear_arith);
        assert(nr * (2 * p) == next * p + (bit * p) * (2 * dr)) by (nonlinear_arith)
            requires
                next == 2 * (nr - dr * bit),
        ;
        vstd::arithmetic::div_mod::lemma_hoist_over_denominator(next * p, bit * p, (2 * dr) as nat);
    }
}

/// A fraction keeps its quotient when both terms are doubled.
proof fn lemma_double_ratio(x: int, b: int)
    requires
        b > 0,
    ensures
        (2 * x) / (2 * b) == x / b,
{
    vstd::arithmetic::div_mod::lemma_fundamental_div_mod(x, b);
    let q = x / b;
    let r = x % b;
    assert(2 * (b * q + r) == q * (2 * b) + 2 * r) by (nonlinear_arith);
    vstd::arithmetic::div_mod::lemma_fundamental_div_mod_converse(2 * x, 2 * b, q, 2 * r);
}

/// A proper fraction of `unit` lies between zero and `unit`.
proof fn lemma_fraction(a: int, b: int, unit: int)
    requires
        0 <= a < b,
        unit > 0,
    ensures
        0 <= (a * unit) / b < unit,
{
    let x = a * unit;
    vstd::arithmetic::div_mod::lemma_fundamental_div_mod(x, b);
    let q = x / b;
    let r = x % b;
    assert(0 <= x < b * unit) by (nonlinear_arith)
        requires
            x == a * unit,
            0 <= a < b,
            unit > 0,
    ;
    assert(0 <= q < unit) by (nonlinear_arith)
        requires
            x == b * q + r,
            0 <= r < b,
            0 <= x < b * unit,
            b > 0,
    ;
}

/// `k` binary digits of a quotient.
fn divide(nr: u32, dr: u32, k: u32) -> (r: u32)
    requires
        k <= 32,
    ensures
        r == long_division(nr as int, dr as int, 0, k as nat),
{
    let mut quotient: u64 = 0;
    let mut mantissa_nr: u32 = nr;
    let mut i: u32 = 0;
    proof {
        lemma2_to64();
        lemma2_to64_rest();
    }
    while i < k
        invariant
            i <= k <= 32,
            quotient < pow2(i as nat) <= 0x1_0000_0000,
            long_division(mantissa_nr as int, dr as int, quotient as int, (k - i) as nat)
                == long_division(nr as int, dr as int, 0, k as nat),
        decreases k - i,
    {
        proof {
            lemma_pow2_unfold((i + 1) as nat);
            lemma2_to64();
            lemma2_to64_rest();
            if i < 31 {
                lemma_pow2_strictly_increases((i + 1) as nat, 32);
            }
        }
        quotient = quotient * 2;
        if mantissa_nr >= dr {
            mantissa_nr = mantissa_nr - dr;
            quotient = quotient + 1;
        }
        mantissa_nr = (mantissa_nr as u64 * 2 % 0x1_0000_0000) as u32;
        i += 1;
    }
    quotient as u32
}

/// `a / b` as a fraction of thirty-one bits, for `0 <= a <= b`; the digits of
/// a long division of the bit patterns for any other operands.
pub fn div32_pos_normb(a: i32, b: i32) -> (r: i32)
    ensures
        a == b ==> r == MAX_32,
        a != b ==> r == wrap32(
            long_division(a as int % 0x1_0000_0000, b as int % 0x1_0000_0000, 0, 32),
        ),
        0 <= a < b ==> r == (a * 0x8000_0000) / b as int,
{
    if a == b {
        return MAX_32;
    }
    let nr: u32 = a as u32;
    let dr: u32 = b as u32;
    assert(nr == a as int % 0x1_0000_0000) by (bit_vector)
        requires
            nr == a as u32,
    ;
    assert(dr == b as int % 0x1_0000_0000) by (bit_vector)
        requires
            dr == b as u32,
    ;
    let digits: u32 = divide(nr, dr, 32);
    proof {
        lemma_cast32(digits as i64);
        if 0 <= a < b {
            lemma2_to64();
            lemma_long_division(a as int, b as int, 0, 32);
            lemma_double_ratio(a * 0x8000_0000, b as int);
            assert(a * pow2(32) == 2 * (a * 0x8000_0000)) by (nonlinear_arith)
                requires
                    pow2(32) == 0x1_0000_0000,
            ;
            lemma_fraction(a as int, b as int, 0x8000_0000);
        }
    }
    (digits as i64) as i32
}

/// The magnitude of a number.
pub open spec fn magnitude(a: int) -> int {
    if a < 0 {
        -a
    } else {
        a
    }
}

/// `a` with the shift `n`, as a mantissa.
pub open spec fn mantissa(a: int, n: int) -> int {
    magnitude(a) * pow2(n as nat)
}

/// The quotient of two numbers in floating form: both are normalized, the
/// mantissas divided to thirty digits, and `q_format` says how many digits of
/// the result stand behind the point. Division by zero gives back `a` with no
/// digits behind the point.
pub fn div32(a: i32, b: i32, q_format: &mut i32) -> (r: i32)
    requires
        b > MIN_32,
        b != 0 ==> a > MIN_32,
    ensures
        b == 0 ==> r == a && *final(q_format) == 0,
        b != 0 ==> exists|n: int, d: int|
            {
                &&& a == 0 ==> n == 31
                &&& a != 0 ==> normalizes(magnitude(a as int), n)
                &&& normalizes(magnitude(b as int), d)
                &&& *final(q_format) == 30 + n - d
                &&& #[trigger] mantissa(b as int, d) > 0
                &&& magnitude(r as int) == (#[trigger] mantissa(a as int, n) * 0x4000_0000)
                    / mantissa(b as int, d)
                &&& (a < 0) == (b < 0) ==> r >= 0
                &&& (a < 0) != (b < 0) ==> r <= 0
            },
{
    if b == 0 {
        *q_format = 0;
        return a;
    }
    let negative: bool = (a < 0) != (b < 0);
    let top: i32 = abs32(a);
    let bottom: i32 = abs32(b);
    let q_nr: i32 = norm32(top);
    let q_dr: i32 = norm32(bottom);
    let nr: u32 = shifted(top, q_nr);
    let dr: u32 = shifted(bottom, q_dr);
    *q_format = 30 + q_nr - q_dr;
    let digits: u32 = divide(nr, dr, 31);
    proof {
        lemma2_to64();
        lemma_long_division(nr as int, dr as int, 0, 31);
        assert(nr * pow2(31) == 2 * (nr * 0x4000_0000)) by (nonlinear_arith)
            requires
                pow2(31) == 0x8000_0000,
        ;
        lemma_double_ratio(nr * 0x4000_0000, dr as int);
        lemma_fraction(nr as int, 2 * dr as int, 0x8000_0000);
        assert(nr * 0x8000_0000 == 2 * (nr * 0x4000_0000));
        assert(mantissa(a as int, q_nr as int) == nr);
        assert(mantissa(b as int, q_dr as int) == dr);
    }
    let quotient: i32 = digits as i32;
    if negative {
        -quotient
    } else {
        quotient
    }
}

/// A number shifted by what normalizes it.
fn shifted(m: i32, n: i32) -> (r: u32)
    requires
        m == 0 && n == 31 || m > 0 && normalizes(m as int, n as int) && n <= 31,
    ensures
        r == m * pow2(n as nat),
        m == 0 ==> r == 0,
        m > 0 ==> 0x4000_0000 <= r < 0x8000_0000,
{
    proof {
        lemma2_to64();
        lemma2_to64_rest();
        if n < 31 {
            lemma_pow2_strictly_increases(n as nat, 31);
        }
        if m == 0 {
            assert(m * pow2(n as nat) == 0) by (nonlinear_arith)
                requires
                    m == 0,
            ;
        }
        vstd::bits::lemma_u64_shl_is_mul(m as u64, n as u64);
    }
    ((m as u64) << (n as u64)) as u32
}

/// Wrapping keeps the low bits: what comes out is in range, differs from what
/// went in by a multiple of the range, and is the same where that was in range.
pub proof fn law_wrapping(x: int)
    ensures
        i32::MIN <= wrap32(x) <= i32::MAX,
        (x - wrap32(x)) % 0x1_0000_0000 == 0,
        i32::MIN <= x <= i32::MAX ==> wrap32(x) == x,
        i64::MIN <= wrap64(x) <= i64::MAX,
        (x - wrap64(x)) % 0x1_0000_0000_0000_0000 == 0,
        i64::MIN <= x <= i64::MAX ==> wrap64(x) == x,
{
}

/// Saturating addition agrees with addition where the sum fits, and otherwise
/// stops at the end of the range it would have left.
pub proof fn law_saturation(x: int)
    ensures
        MIN_32 <= clamp32(x) <= MAX_32,
        MIN_32 <= x <= MAX_32 <==> clamp32(x) == x,
        x > MAX_32 ==> clamp32(x) == MAX_32,
        x < MIN_32 ==> clamp32(x) == MIN_32,
        MIN_32 <= x <= MAX_32 ==> wrap32(x) == x,
        forall|y: int| x <= y ==> clamp32(x) <= #[trigger] clamp32(y),
{
}

/// The saturating fractional multiplications agree: on numbers of 16 bits in
/// the upper halves of their operands they all give what the multiplication of
/// those numbers gives.
pub proof fn law_multiplications_agree(a: i16, b: i16)
    ensures
        ({
            let short = clamp32(2 * (a * b));
            let high_a = a * 65536;
            let high_b = b * 65536;
            &&& clamp32(2 * ((high_a * b) / 65536)) == short
            &&& clamp32(2 * ((high_a * (high_b / 65536)) / 65536)) == short
            &&& clamp32(2 * ((high_a * high_b) / 0x1_0000_0000)) == short
        }),
{
    let p = a * b;
    assert((a * 65536) * b == p * 65536) by (nonlinear_arith)
        requires
            p == a * b,
    ;
    assert((a * 65536) * (b * 65536) == p * 0x1_0000_0000) by (nonlinear_arith)
        requires
            p == a * b,
    ;
}

/// Wrapping to sixteen bits keeps the low sixteen.
pub proof fn law_wrapping_to_sixteen(x: int)
    ensures
        i16::MIN <= wrap16(x) <= i16::MAX,
        (x - wrap16(x)) % 0x1_0000 == 0,
{
}

/// Saturating to sixty-four bits goes to the nearest number in range.
pub proof fn law_saturation_to_sixty_four(x: int, y: int)
    requires
        i64::MIN <= y <= i64::MAX,
    ensures
        i64::MIN <= clamp64(x) <= i64::MAX,
        magnitude(x - clamp64(x)) <= magnitude(x - y),
{
}

/// A shift operand counts by its low eight bits.
pub proof fn law_shift_operand(b: i32)
    ensures
        0 <= shift_of(b) <= 255,
        (b - shift_of(b)) % 256 == 0,
        0 <= b <= 255 ==> shift_of(b) == b,
{
}

/// A normalized number has thirty-one bits; one place further it reads as
/// normalized in thirty-two.
pub proof fn law_normalized_number(m: int, n: int)
    requires
        normalizes(m, n),
    ensures
        n >= 0,
        (m * pow2(n as nat)) / 0x4000_0000 == 1,
        m <= i32::MAX ==> reads_normalized(m as i32, n as nat),
        m > 0,
{
    lemma_pow2_pos(n as nat);
    let p = pow2(n as nat) as int;
    assert(m > 0) by (nonlinear_arith)
        requires
            m * p > 0,
            p > 0,
    ;
}

/// Long division of a number less than twice the divisor gives the digits of
/// half the quotient, rounded down.
pub proof fn law_long_division(nr: int, dr: int, k: nat)
    requires
        0 <= nr < 2 * dr <= 0x1_0000_0000,
    ensures
        ({
            let q = long_division(nr, dr, 0, k);
            q * (2 * dr) <= nr * pow2(k) < (q + 1) * (2 * dr)
        }),
{
    lemma_long_division(nr, dr, 0, k);
    let x = nr * pow2(k);
    let q = x / (2 * dr);
    vstd::arithmetic::div_mod::lemma_fundamental_div_mod(x, 2 * dr);
    assert(0 * pow2(k) == 0) by (nonlinear_arith);
    assert(q * (2 * dr) <= x < (q + 1) * (2 * dr)) by (nonlinear_arith)
        requires
            x == (2 * dr) * q + x % (2 * dr),
            0 <= x % (2 * dr) < 2 * dr,
    ;
}

/// A mantissa starts at the number without its sign and doubles with each
/// place.
pub proof fn law_mantissa(a: int, n: int)
    requires
        n >= 0,
    ensures
        mantissa(a, 0) == a || mantissa(a, 0) == -a,
        mantissa(a, 0) >= 0,
        mantissa(a, n + 1) == 2 * mantissa(a, n),
{
    lemma2_to64();
    lemma_shift_by_zero(magnitude(a));
    lemma_pow2_unfold((n + 1) as nat);
    let m = magnitude(a);
    let p = pow2(n as nat) as int;
    assert(m * (2 * p) == 2 * (m * p)) by (nonlinear_arith);
}

} // verus!
