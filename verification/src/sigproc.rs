//! Fixed-point arithmetic of the SILK layer.
//!
//! 16-bit operands are the bottom halves of their `i32` arguments, 64-bit
//! products are cut back to 32 bits, additions wrap and right shifts round
//! toward minus infinity. Each helper has a specification function of the
//! same name with the suffix `_spec`; the filters and parameter decoders are
//! specified in terms of these.
use vstd::arithmetic::div_mod::{
    lemma_fundamental_div_mod, lemma_fundamental_div_mod_converse, lemma_mod_bound,
};
use vstd::arithmetic::power2::{lemma2_to64, lemma_pow2_adds, lemma_pow2_pos, lemma_pow2_unfold, pow2};
use vstd::bits::{lemma_u32_shl_is_mul, lemma_u32_shr_is_div};
use vstd::prelude::*;
use vstd::std_specs::bits::axiom_u32_leading_zeros;

verus! {

// ---------------------------------------------------------------------
// Shifts as arithmetic
// ---------------------------------------------------------------------

/// Dividing by `p` and then by two is dividing by `2 * p`.
proof fn lemma_div_twice(x: int, p: int)
    requires
        p > 0,
    ensures
        (x / p) / 2 == x / (2 * p),
        p * 2 == 2 * p,
{
    let q: int = x / p;
    lemma_fundamental_div_mod(x, p);
    lemma_mod_bound(x, p);
    let rem: int = x - (2 * p) * (q / 2);
    assert(p * q == (2 * p) * (q / 2) + p * (q % 2)) by (nonlinear_arith)
        requires
            q == 2 * (q / 2) + q % 2,
    ;
    assert(rem == p * (q % 2) + x % p);
    assert(0 <= rem < 2 * p) by {
        if q % 2 == 0 {
            assert(p * (q % 2) == 0) by (nonlinear_arith)
                requires
                    q % 2 == 0,
            ;
        } else {
            assert(p * (q % 2) == p) by (nonlinear_arith)
                requires
                    q % 2 == 1,
            ;
        }
    }
    lemma_fundamental_div_mod_converse(x, 2 * p, q / 2, rem);
}

/// An arithmetic right shift of an `i32` is a floored division by a power
/// of two.
pub proof fn lemma_shr_i32(x: i32, n: u32)
    requires
        n < 32,
    ensures
        (x >> n) as int == x as int / pow2(n as nat) as int,
    decreases n,
{
    lemma2_to64();
    if n == 0 {
        assert(x >> 0u32 == x) by (bit_vector);
    } else {
        let m: u32 = (n - 1) as u32;
        lemma_shr_i32(x, m);
        let y: i32 = x >> m;
        assert(x >> n == (x >> m) >> 1u32) by (bit_vector)
            requires
                n < 32,
                m == n - 1,
        ;
        assert(y >> 1u32 == y / 2) by (bit_vector);
        lemma_pow2_pos(m as nat);
        lemma_div_twice(x as int, pow2(m as nat) as int);
        lemma_pow2_unfold(n as nat);
        assert(pow2(m as nat) * 2 == pow2(n as nat));
    }
}

/// An arithmetic right shift of an `i64` is a floored division by a power
/// of two.
pub proof fn lemma_shr_i64(x: i64, n: u32)
    requires
        n < 64,
    ensures
        (x >> n) as int == x as int / pow2(n as nat) as int,
    decreases n,
{
    lemma2_to64();
    if n == 0 {
        assert(x >> 0u32 == x) by (bit_vector);
    } else {
        let m: u32 = (n - 1) as u32;
        lemma_shr_i64(x, m);
        let y: i64 = x >> m;
        assert(x >> n == (x >> m) >> 1u32) by (bit_vector)
            requires
                n < 64,
                m == n - 1,
        ;
        assert(y >> 1u32 == y / 2) by (bit_vector);
        lemma_pow2_pos(m as nat);
        lemma_div_twice(x as int, pow2(m as nat) as int);
        lemma_pow2_unfold(n as nat);
        assert(pow2(m as nat) * 2 == pow2(n as nat));
    }
}

/// A left shift that loses no bits is a multiplication by a power of two.
pub proof fn lemma_shl_i32(x: i32, n: u32)
    requires
        n < 32,
        i32::MIN <= x * pow2(n as nat) <= i32::MAX,
    ensures
        (x << n) as int == x * pow2(n as nat),
    decreases n,
{
    lemma2_to64();
    if n == 0 {
        assert(x << 0u32 == x) by (bit_vector);
        assert(x * 1 == x);
    } else {
        let m: u32 = (n - 1) as u32;
        lemma_pow2_unfold(n as nat);
        let p: int = pow2(m as nat) as int;
        assert(x * pow2(n as nat) == 2 * (x * p)) by (nonlinear_arith)
            requires
                pow2(n as nat) == 2 * p,
        ;
        lemma_shl_i32(x, m);
        let y: i32 = x << m;
        assert(x << n == (x << m) << 1u32) by (bit_vector)
            requires
                n < 32,
                m == n - 1,
        ;
        assert(-0x4000_0000 <= y < 0x4000_0000 ==> y << 1u32 == 2 * y) by (bit_vector);
    }
}

// ---------------------------------------------------------------------
// Products
// ---------------------------------------------------------------------

/// Product of the bottom 16-bit halves.
#[verifier::opaque]
pub open spec fn smulbb_spec(a: i32, b: i32) -> i32 {
    ((a as i16) * (b as i16)) as i32
}

/// Product of `a` and the bottom half of `b`, in units of 2^16.
#[verifier::opaque]
pub open spec fn smulwb_spec(a: i32, b: i32) -> i32 {
    ((a * (b as i16)) / 0x1_0000) as i32
}

pub open spec fn smlawb_spec(a: i32, b: i32, c: i32) -> i32 {
    a.wrapping_add(smulwb_spec(b, c))
}

pub open spec fn smlabb_spec(a: i32, b: i32, c: i32) -> i32 {
    a.wrapping_add(smulbb_spec(b, c))
}

/// The full product in units of 2^16, cut to 32 bits.
#[verifier::opaque]
pub open spec fn smulww_spec(a: i32, b: i32) -> i32 {
    ((a * b) / 0x1_0000) as i32
}

pub open spec fn smlaww_spec(a: i32, b: i32, c: i32) -> i32 {
    a.wrapping_add(smulww_spec(b, c))
}

/// High word of the 64-bit product.
#[verifier::opaque]
pub open spec fn smmul_spec(a: i32, b: i32) -> i32 {
    ((a * b) / 0x1_0000_0000) as i32
}

/// Product of the top 16-bit halves.
#[verifier::opaque]
pub open spec fn smultt_spec(a: i32, b: i32) -> i32 {
    ((a as int / 0x1_0000) * (b as int / 0x1_0000)) as i32
}

pub proof fn lemma_product_bound(a: int, b: int, m: int, n: int)
    requires
        -m <= a <= m,
        -n <= b <= n,
    ensures
        -(m * n) <= a * b <= m * n,
{
    assert(-(m * n) <= a * b <= m * n) by (nonlinear_arith)
        requires
            -m <= a <= m,
            -n <= b <= n,
    ;
}

/// `smulwb` never exceeds half of its first operand in magnitude.
pub proof fn lemma_smulwb_bound(a: i32, b: i32, m: int)
    requires
        -m <= a <= m,
        0 <= m <= 0x8000_0000,
    ensures
        smulwb_spec(a, b) == (a * (b as i16)) / 0x1_0000,
        -(m / 2) - 1 <= smulwb_spec(a, b) <= m / 2 + 1,
{
    reveal(smulwb_spec);
    lemma_product_bound(a as int, (b as i16) as int, m, 0x8000);
}

pub fn smulbb(a: i32, b: i32) -> (r: i32)
    ensures
        r == smulbb_spec(a, b),
        -0x4000_0000 <= r <= 0x4000_0000,
{
    let x: i16 = a as i16;
    let y: i16 = b as i16;
    proof {
        reveal(smulbb_spec);
        lemma_product_bound(x as int, y as int, 0x8000, 0x8000);
    }
    (x as i32) * (y as i32)
}

pub fn smulwb(a: i32, b: i32) -> (r: i32)
    ensures
        r == smulwb_spec(a, b),
{
    let y: i16 = b as i16;
    proof {
        reveal(smulwb_spec);
        lemma_product_bound(a as int, y as int, 0x8000_0000, 0x8000);
    }
    let p: i64 = (a as i64) * (y as i64);
    proof {
        lemma2_to64();
        lemma_shr_i64(p, 16);
    }
    (p >> 16u32) as i32
}

pub fn smlawb(a: i32, b: i32, c: i32) -> (r: i32)
    ensures
        r == smlawb_spec(a, b, c),
{
    a.wrapping_add(smulwb(b, c))
}

pub fn smlabb(a: i32, b: i32, c: i32) -> (r: i32)
    ensures
        r == smlabb_spec(a, b, c),
{
    a.wrapping_add(smulbb(b, c))
}

/// Wrapping 32-bit product.
pub fn mul(a: i32, b: i32) -> (r: i32)
    ensures
        r == a.wrapping_mul(b),
{
    a.wrapping_mul(b)
}

/// 64-bit product of two 32-bit operands.
pub fn smull(a: i32, b: i32) -> (r: i64)
    ensures
        r == a * b,
{
    proof {
        lemma_product_bound(a as int, b as int, 0x8000_0000, 0x8000_0000);
    }
    (a as i64) * (b as i64)
}

pub fn smulww(a: i32, b: i32) -> (r: i32)
    ensures
        r == smulww_spec(a, b),
{
    let p: i64 = smull(a, b);
    proof {
        reveal(smulww_spec);
        lemma2_to64();
        lemma_shr_i64(p, 16);
    }
    (p >> 16u32) as i32
}

pub fn smlaww(a: i32, b: i32, c: i32) -> (r: i32)
    ensures
        r == smlaww_spec(a, b, c),
{
    a.wrapping_add(smulww(b, c))
}

pub fn smmul(a: i32, b: i32) -> (r: i32)
    ensures
        r == smmul_spec(a, b),
{
    let p: i64 = smull(a, b);
    proof {
        reveal(smmul_spec);
        lemma2_to64();
        lemma_shr_i64(p, 32);
    }
    (p >> 32u32) as i32
}

pub fn smultt(a: i32, b: i32) -> (r: i32)
    ensures
        r == smultt_spec(a, b),
{
    proof {
        reveal(smultt_spec);
        lemma2_to64();
        lemma_shr_i32(a, 16);
        lemma_shr_i32(b, 16);
        lemma_product_bound(a as int / 0x1_0000, b as int / 0x1_0000, 0x8000, 0x8000);
    }
    (a >> 16u32) * (b >> 16u32)
}

// ---------------------------------------------------------------------
// Rounding shifts and saturation
// ---------------------------------------------------------------------

/// Division by 2^shift, rounded to the nearest integer with halves up.
#[verifier::opaque]
pub open spec fn rshift_round_spec(a: i32, shift: u32) -> i32 {
    ((a as int + pow2((shift - 1) as nat)) / pow2(shift as nat) as int) as i32
}

/// The 64-bit form of [`rshift_round_spec`].
#[verifier::opaque]
pub open spec fn rshift_round64_spec(a: i64, shift: u32) -> i64 {
    ((a as int + pow2((shift - 1) as nat)) / pow2(shift as nat) as int) as i64
}

/// Halving the floored quotient plus one is the rounded quotient.
proof fn lemma_round_half(a: int, n: nat)
    requires
        n >= 1,
    ensures
        (a / pow2((n - 1) as nat) as int + 1) / 2 == (a + pow2((n - 1) as nat)) / pow2(n) as int,
{
    let p: int = pow2((n - 1) as nat) as int;
    lemma_pow2_pos((n - 1) as nat);
    lemma_pow2_unfold(n);
    assert(pow2(n) == 2 * p);
    vstd::arithmetic::div_mod::lemma_hoist_over_denominator(a, 1, p as nat);
    assert((a + p) / p == a / p + 1) by {
        assert(a / p + 1 == (a + 1 * p) / p);
    }
    lemma_div_twice(a + p, p);
}

pub fn rshift_round(a: i32, shift: u32) -> (r: i32)
    requires
        1 <= shift < 32,
    ensures
        r == rshift_round_spec(a, shift),
        shift >= 2 ==> -0x2000_0000 <= r <= 0x2000_0000,
        shift >= 16 ==> -0x8000 <= r <= 0x8000,
        a >= 0 ==> r >= 0,
        a <= 0 ==> r <= 0,
{
    proof {
        lemma_rshift_round_bounds(a, shift);
        lemma2_to64();
    }
    if shift == 1 {
        proof {
            reveal(rshift_round_spec);
            assert((a >> 1u32) == a / 2) by (bit_vector);
            assert((a & 1) == a % 2) by (bit_vector);
            assert(a as int / 2 + a as int % 2 == (a + 1) / 2);
        }
        (a >> 1u32) + (a & 1)
    } else {
        let m: u32 = shift - 1;
        proof {
            reveal(rshift_round_spec);
            lemma_shr_i32(a, m);
            lemma_pow2_pos(m as nat);
            lemma_pow2_unfold(m as nat);
            lemma_pow2_pos((m - 1) as nat);
            assert(pow2(m as nat) >= 2);
            assert(-0x4000_0000 <= a as int / pow2(m as nat) as int <= 0x3fff_ffff) by (nonlinear_arith)
                requires
                    pow2(m as nat) >= 2,
                    -0x8000_0000 <= a <= 0x7fff_ffff,
            ;
            lemma_round_half(a as int, shift as nat);
            let y: i32 = ((a >> m) + 1) as i32;
            assert(y >> 1u32 == y / 2) by (bit_vector);
        }
        ((a >> m) + 1) >> 1u32
    }
}

/// Range and sign of a rounding shift.
pub proof fn lemma_rshift_round_bounds(a: i32, shift: u32)
    requires
        1 <= shift < 32,
    ensures
        rshift_round_spec(a, shift) == (a + pow2((shift - 1) as nat)) / pow2(shift as nat) as int,
        -0x4000_0000 <= rshift_round_spec(a, shift) <= 0x4000_0000,
        shift >= 2 ==> -0x2000_0000 <= rshift_round_spec(a, shift) <= 0x2000_0000,
        shift >= 16 ==> -0x8000 <= rshift_round_spec(a, shift) <= 0x8000,
        a >= 0 ==> rshift_round_spec(a, shift) >= 0,
        a <= 0 ==> rshift_round_spec(a, shift) <= 0,
{
    reveal(rshift_round_spec);
    lemma2_to64();
    let h: int = pow2((shift - 1) as nat) as int;
    let p: int = pow2(shift as nat) as int;
    lemma_pow2_pos((shift - 1) as nat);
    lemma_pow2_unfold(shift as nat);
    assert(p == 2 * h);
    if shift >= 2 {
        lemma_pow2_unfold((shift - 1) as nat);
        lemma_pow2_pos((shift - 2) as nat);
    }
    if shift >= 16 {
        lemma_pow2_adds(15, (shift - 16) as nat);
        lemma_pow2_pos((shift - 16) as nat);
        assert(h >= 0x8000) by (nonlinear_arith)
            requires
                h == 0x8000 * pow2((shift - 16) as nat),
                pow2((shift - 16) as nat) >= 1,
        ;
    }
    assert(h <= 0x4000_0000) by {
        lemma_pow2_adds((shift - 1) as nat, (31 - shift) as nat);
        lemma_pow2_pos((31 - shift) as nat);
        assert(h <= 0x4000_0000) by (nonlinear_arith)
            requires
                h * pow2((31 - shift) as nat) == 0x4000_0000,
                pow2((31 - shift) as nat) >= 1,
                h >= 1,
        ;
    }
    let q: int = (a + h) / p;
    lemma_fundamental_div_mod(a + h, p);
    lemma_mod_bound(a + h, p);
    let rem: int = (a + h) % p;
    assert(p * q + rem == a + h && 0 <= rem < p);
    assert(2 * (h * q) == p * q) by (nonlinear_arith)
        requires
            p == 2 * h,
    ;
    assert(-0x4000_0000 <= q <= 0x4000_0000) by (nonlinear_arith)
        requires
            2 * (h * q) + rem == a + h,
            0 <= rem < 2 * h,
            h >= 1,
            -0x8000_0000 <= a <= 0x7fff_ffff,
    ;
    if shift >= 2 {
        assert(-0x2000_0000 <= q <= 0x2000_0000) by (nonlinear_arith)
            requires
                2 * (h * q) + rem == a + h,
                0 <= rem < 2 * h,
                h >= 2,
                -0x8000_0000 <= a <= 0x7fff_ffff,
        ;
    }
    if shift >= 16 {
        assert(-0x8000 <= q <= 0x8000) by (nonlinear_arith)
            requires
                2 * (h * q) + rem == a + h,
                0 <= rem < 2 * h,
                h >= 0x8000,
                -0x8000_0000 <= a <= 0x7fff_ffff,
        ;
    }
    if a >= 0 {
        assert(q >= 0) by (nonlinear_arith)
            requires
                2 * (h * q) + rem == a + h,
                0 <= rem < 2 * h,
                h >= 1,
                a >= 0,
        ;
    }
    if a <= 0 {
        assert(q <= 0) by (nonlinear_arith)
            requires
                2 * (h * q) + rem == a + h,
                0 <= rem < 2 * h,
                h >= 1,
                a <= 0,
        ;
    }
}

pub fn rshift_round64(a: i64, shift: u32) -> (r: i64)
    requires
        1 <= shift < 64,
    ensures
        r == rshift_round64_spec(a, shift),
{
    proof {
        reveal(rshift_round64_spec);
        lemma2_to64();
    }
    if shift == 1 {
        proof {
            assert((a >> 1u32) == a / 2) by (bit_vector);
            assert((a & 1) == a % 2) by (bit_vector);
        }
        (a >> 1u32) + (a & 1)
    } else {
        let m: u32 = shift - 1;
        proof {
            lemma_shr_i64(a, m);
            lemma_pow2_unfold(m as nat);
            lemma_pow2_pos((m - 1) as nat);
            assert(pow2(m as nat) >= 2);
            assert(-0x4000_0000_0000_0000 <= a as int / pow2(m as nat) as int
                <= 0x3fff_ffff_ffff_ffff) by (nonlinear_arith)
                requires
                    pow2(m as nat) >= 2,
                    -0x8000_0000_0000_0000 <= a <= 0x7fff_ffff_ffff_ffff,
            ;
            lemma_round_half(a as int, shift as nat);
            let y: i64 = ((a >> m) + 1) as i64;
            assert(y >> 1u32 == y / 2) by (bit_vector);
        }
        ((a >> m) + 1) >> 1u32
    }
}

/// Clamp to the `i16` range.
pub open spec fn sat16_spec(a: i32) -> i16 {
    if a < i16::MIN {
        i16::MIN
    } else if a > i16::MAX {
        i16::MAX
    } else {
        a as i16
    }
}

pub fn sat16(a: i32) -> (r: i16)
    ensures
        r == sat16_spec(a),
{
    if a < -32768 {
        -32768
    } else if a > 32767 {
        32767
    } else {
        a as i16
    }
}

/// Clamp of an integer to the `i32` range.
pub open spec fn sat32_spec(a: int) -> i32 {
    if a < i32::MIN {
        i32::MIN
    } else if a > i32::MAX {
        i32::MAX
    } else {
        a as i32
    }
}

fn sat32(a: i64) -> (r: i32)
    ensures
        r == sat32_spec(a as int),
{
    if a < -0x8000_0000 {
        i32::MIN
    } else if a > 0x7fff_ffff {
        i32::MAX
    } else {
        a as i32
    }
}

pub open spec fn add_sat16_spec(a: i32, b: i32) -> i16 {
    sat16_spec(a.wrapping_add(b))
}

pub fn add_sat16(a: i32, b: i32) -> (r: i16)
    ensures
        r == add_sat16_spec(a, b),
{
    sat16(a.wrapping_add(b))
}

/// Difference, clamped to the `i32` range.
pub fn sub_sat32(a: i32, b: i32) -> (r: i32)
    ensures
        r == sat32_spec(a - b),
{
    sat32(a as i64 - b as i64)
}

/// Sum, clamped to the `i32` range.
pub fn add_sat32(a: i32, b: i32) -> (r: i32)
    ensures
        r == sat32_spec(a + b),
{
    sat32(a as i64 + b as i64)
}

/// `a + (b << shift)`, wrapping.
pub fn add_lshift32(a: i32, b: i32, shift: u32) -> (r: i32)
    ensures
        r == a.wrapping_add(b.wrapping_shl(shift)),
{
    a.wrapping_add(b.wrapping_shl(shift))
}

/// `a - (b << shift)`, wrapping.
pub fn sub_lshift32(a: i32, b: i32, shift: u32) -> (r: i32)
    ensures
        r == a.wrapping_sub(b.wrapping_shl(shift)),
{
    a.wrapping_sub(b.wrapping_shl(shift))
}

/// Multiplication by 2^shift of the input clamped so that the product fits.
#[verifier::opaque]
pub open spec fn lshift_sat32_spec(a: i32, shift: u32) -> i32 {
    let p = pow2(shift as nat) as int;
    let lo = i32::MIN as int / p;
    let hi = i32::MAX as int / p;
    ((if a < lo {
        lo
    } else if a > hi {
        hi
    } else {
        a as int
    }) * p) as i32
}

pub fn lshift_sat32(a: i32, shift: u32) -> (r: i32)
    requires
        1 <= shift < 32,
    ensures
        r == lshift_sat32_spec(a, shift),
{
    let lo: i32 = i32::MIN >> shift;
    let hi: i32 = i32::MAX >> shift;
    let c: i32 = if a < lo {
        lo
    } else if a > hi {
        hi
    } else {
        a
    };
    proof {
        reveal(lshift_sat32_spec);
        lemma_shr_i32(i32::MIN, shift);
        lemma_shr_i32(i32::MAX, shift);
        lemma_pow2_pos(shift as nat);
        let p: int = pow2(shift as nat) as int;
        lemma_fundamental_div_mod(i32::MAX as int, p);
        lemma_mod_bound(i32::MAX as int, p);
        lemma2_to64();
        lemma_pow2_adds(shift as nat, (31 - shift) as nat);
        lemma_fundamental_div_mod(i32::MIN as int, p);
        assert(i32::MIN as int % p == 0) by {
            let k: int = pow2((31 - shift) as nat) as int;
            assert(i32::MIN as int == p * (-k) + 0) by (nonlinear_arith)
                requires
                    p * k == 0x8000_0000,
                    i32::MIN as int == -0x8000_0000,
            ;
            lemma_fundamental_div_mod_converse(i32::MIN as int, p, -k, 0);
        }
        assert(i32::MIN <= c * p <= i32::MAX) by (nonlinear_arith)
            requires
                lo <= c <= hi,
                p >= 1,
                p * lo == i32::MIN as int,
                p * hi <= i32::MAX as int,
        ;
        lemma_shl_i32(c, shift);
    }
    c << shift
}

// ---------------------------------------------------------------------
// Division
// ---------------------------------------------------------------------

/// Quotient rounded toward zero.
pub open spec fn trunc_div(a: int, b: int) -> int {
    if a >= 0 {
        a / b
    } else {
        -((-a) / b)
    }
}

/// A quotient is no larger than the dividend.
pub proof fn lemma_trunc_div_bound(a: int, b: int)
    requires
        b != 0,
    ensures
        a >= 0 ==> -a <= trunc_div(a, b) <= a,
        a < 0 ==> a <= trunc_div(a, b) <= -a,
        a < 0 && (b < -1 || b > 0) ==> trunc_div(a, b) < -a,
{
    let x: int = if a >= 0 {
        a
    } else {
        -a
    };
    lemma_fundamental_div_mod(x, b);
    let q: int = x / b;
    let r: int = x % b;
    assert(-x <= q <= x) by (nonlinear_arith)
        requires
            x == b * q + r,
            0 <= r,
            b != 0,
            x >= 0,
            b > 0 ==> r < b,
            b < 0 ==> r < -b,
    ;
    if a < 0 && (b < -1 || b > 0) {
        assert(q > -x) by (nonlinear_arith)
            requires
                x == b * q + r,
                0 <= r,
                x > 0,
                b > 0 || b < -1,
                b > 0 ==> r < b,
                b < 0 ==> r < -b,
        ;
    }
}

/// Quotient of `a` and the bottom half of `b`, rounded toward zero.
pub fn div32_16(a: i32, b: i32) -> (r: i32)
    requires
        b as i16 != 0,
        !(a == i32::MIN && b as i16 == -1),
    ensures
        r == trunc_div(a as int, (b as i16) as int),
{
    div32(a, b as i16 as i32)
}

/// Quotient rounded toward zero.
pub fn div32(a: i32, b: i32) -> (r: i32)
    requires
        b != 0,
        !(a == i32::MIN && b == -1),
    ensures
        r == trunc_div(a as int, b as int),
{
    proof {
        lemma_trunc_div_bound(a as int, b as int);
    }
    a / b
}

// ---------------------------------------------------------------------
// Noise generator
// ---------------------------------------------------------------------

pub const RAND_MULTIPLIER: i32 = 196314165;

pub const RAND_INCREMENT: i32 = 907633515;

/// One step of the linear congruential generator modulo 2^32.
pub open spec fn rand_spec(seed: i32) -> i32 {
    seed.wrapping_mul(RAND_MULTIPLIER).wrapping_add(RAND_INCREMENT)
}

pub fn rand(seed: i32) -> (r: i32)
    ensures
        r == rand_spec(seed),
{
    seed.wrapping_mul(RAND_MULTIPLIER).wrapping_add(RAND_INCREMENT)
}

// ---------------------------------------------------------------------
// Normalization and square root
// ---------------------------------------------------------------------

/// Number of leading zero bits of the two's complement pattern.
pub open spec fn clz_spec(x: i32) -> u32 {
    (x as u32).leading_zeros()
}

/// Leading zeros locate a positive number between two powers of two.
pub proof fn lemma_clz(x: u32)
    ensures
        x.leading_zeros() <= 32,
        x == 0 <==> x.leading_zeros() == 32,
        x > 0 ==> pow2((31 - x.leading_zeros()) as nat) <= x < pow2((32 - x.leading_zeros()) as nat),
{
    axiom_u32_leading_zeros(x);
    let lz: u32 = x.leading_zeros();
    if x > 0 {
        let k: u32 = (31 - lz) as u32;
        let y: u32 = x >> k;
        assert(y & 1 != 0 ==> y >= 1) by (bit_vector);
        lemma_u32_shr_is_div(x, k);
        lemma_pow2_pos(k as nat);
        lemma_fundamental_div_mod(x as int, pow2(k as nat) as int);
        lemma_mod_bound(x as int, pow2(k as nat) as int);
        let q: int = x as int / pow2(k as nat) as int;
        assert(x >= pow2(k as nat)) by (nonlinear_arith)
            requires
                q >= 1,
                x == pow2(k as nat) * q + x as int % pow2(k as nat) as int,
                x as int % pow2(k as nat) as int >= 0,
                pow2(k as nat) > 0,
        ;
        if lz >= 1 {
            let m: u32 = (32 - lz) as u32;
            lemma_u32_shr_is_div(x, m);
            lemma_pow2_pos(m as nat);
            lemma_fundamental_div_mod(x as int, pow2(m as nat) as int);
            lemma_mod_bound(x as int, pow2(m as nat) as int);
            assert(pow2(m as nat) * 0 == 0);
        } else {
            lemma2_to64();
        }
    }
}

/// The seven bits that follow the leading one bit.
pub open spec fn clz_frac_spec(x: i32) -> int {
    let lz = clz_spec(x);
    let u = (x as u32) as int;
    if lz <= 24 {
        (u / pow2((24 - lz) as nat) as int) % 128
    } else {
        (u * pow2((lz - 24) as nat)) % 128
    }
}

pub fn clz(x: i32) -> (r: u32)
    ensures
        r == clz_spec(x),
        r <= 32,
{
    proof {
        axiom_u32_leading_zeros(x as u32);
    }
    (x as u32).leading_zeros()
}

pub fn clz_frac(x: i32) -> (r: (u32, i32))
    ensures
        r.0 == clz_spec(x),
        r.1 == clz_frac_spec(x),
        r.0 <= 32,
        0 <= r.1 < 128,
{
    let u: u32 = x as u32;
    let lz: u32 = clz(x);
    proof {
        lemma_clz(u);
        lemma2_to64();
    }
    let f: u32 = if lz <= 24 {
        proof {
            lemma_u32_shr_is_div(u, (24 - lz) as u32);
        }
        u >> (24 - lz)
    } else {
        proof {
            let k: nat = (lz - 24) as nat;
            lemma_pow2_pos(k);
            if u > 0 {
                lemma_pow2_adds((32 - lz) as nat, k);
                assert(u * pow2(k) <= 256) by (nonlinear_arith)
                    requires
                        u < pow2((32 - lz) as nat),
                        pow2((32 - lz) as nat) * pow2(k) == 256,
                        pow2(k) > 0,
                        u >= 0,
                ;
            } else {
                assert(u * pow2(k) == 0) by (nonlinear_arith)
                    requires
                        u == 0,
                ;
            }
            lemma_u32_shl_is_mul(u, (lz - 24) as u32);
        }
        u << (lz - 24)
    };
    proof {
        assert(f & 0x7f == f % 128) by (bit_vector);
    }
    (lz, (f & 0x7f) as i32)
}

/// Square root approximation: a power of two scaled by the parity of the
/// leading zero count, plus a linear correction from the bits below the
/// leading one.
pub open spec fn sqrt_approx_spec(x: i32) -> i32 {
    if x <= 0 {
        0
    } else {
        let lz = clz_spec(x);
        let base: int = if lz % 2 == 1 {
            32768
        } else {
            46214
        };
        let y = (base / pow2((lz / 2) as nat) as int) as i32;
        y.wrapping_add(smulwb_spec(y, smulbb_spec(213, clz_frac_spec(x) as i32)))
    }
}

pub fn sqrt_approx(x: i32) -> (r: i32)
    ensures
        r == sqrt_approx_spec(x),
        0 <= r <= 65536,
{
    if x <= 0 {
        return 0;
    }
    let (lz, frac_q7) = clz_frac(x);
    proof {
        axiom_u32_leading_zeros(x as u32);
        lemma_pow2_pos((lz / 2) as nat);
    }
    let base: i32 = if lz % 2 == 1 {
        32768
    } else {
        46214
    };
    proof {
        lemma_shr_i32(base, (lz / 2) as u32);
        let p: int = pow2((lz / 2) as nat) as int;
        assert(0 <= base as int / p <= 46214) by (nonlinear_arith)
            requires
                0 <= base <= 46214,
                p >= 1,
        ;
        reveal(smulbb_spec);
        reveal(smulwb_spec);
        let y: int = base as int / p;
        let z: int = 213 * frac_q7;
        assert(0 <= y * z <= 46214 * 27051) by (nonlinear_arith)
            requires
                0 <= y <= 46214,
                0 <= z <= 27051,
        ;
    }
    let y: i32 = base >> (lz / 2);
    y.wrapping_add(smulwb(y, smulbb(213, frac_q7)))
}

/// Shifting out `s` bits leaves at least `s` leading zeros.
proof fn lemma_clz_after_shr(u: u32, s: u32)
    requires
        s < 32,
    ensures
        (u >> s).leading_zeros() >= s,
        s >= 1 ==> (u >> s) <= i32::MAX,
{
    let v: u32 = u >> s;
    lemma_clz(v);
    lemma_u32_shr_is_div(u, s);
    lemma_pow2_pos(s as nat);
    let lz: u32 = v.leading_zeros();
    lemma_fundamental_div_mod(u as int, pow2(s as nat) as int);
    lemma_mod_bound(u as int, pow2(s as nat) as int);
    lemma2_to64();
    if lz < s {
        let a: int = pow2((31 - lz) as nat) as int;
        let b: int = pow2(s as nat) as int;
        lemma_pow2_adds((31 - lz) as nat, s as nat);
        lemma_pow2_adds(32, (s - lz - 1) as nat);
        lemma_pow2_pos((s - lz - 1) as nat);
        assert(u >= 0x1_0000_0000) by (nonlinear_arith)
            requires
                u >= b * v,
                v >= a,
                b > 0,
                a * b == 0x1_0000_0000 * pow2((s - lz - 1) as nat),
                pow2((s - lz - 1) as nat) >= 1,
        ;
    }
    if s >= 1 {
        assert(v <= 0x7fff_ffff) by (bit_vector)
            requires
                v == u >> s,
                1 <= s < 32,
        ;
    }
}

// ---------------------------------------------------------------------
// Energy
// ---------------------------------------------------------------------

/// Energy accumulated over the first `n` samples in steps of two (the last
/// step takes one sample if `n` is odd): each step adds the squares and
/// shifts the running sum.
pub open spec fn energy_pass_spec(x: Seq<i16>, n: int, shift: u32, init: i32) -> i32
    decreases n,
{
    if n <= 0 {
        init
    } else if n % 2 == 0 {
        let t = (x[n - 2] * x[n - 2] + x[n - 1] * x[n - 1]) as u32;
        ((energy_pass_spec(x, n - 2, shift, init) as u32).wrapping_add(t) >> shift) as i32
    } else {
        let t = (x[n - 1] * x[n - 1]) as u32;
        ((energy_pass_spec(x, n - 1, shift, init) as u32).wrapping_add(t) >> shift) as i32
    }
}

/// Shift of the second pass, from the headroom that the first pass left.
pub open spec fn energy_shift_spec(x: Seq<i16>) -> u32 {
    let s0 = (31 - clz_spec(x.len() as i32)) as u32;
    let s = s0 + 3 - clz_spec(energy_pass_spec(x, x.len() as int, s0, x.len() as i32));
    if s > 0 {
        s as u32
    } else {
        0
    }
}

/// Energy of a vector in its own measure, and the shift of the steps. Of a
/// loud vector each step shifts what came before once more, so that the last
/// samples count most; of a quiet one it is the exact energy, see
/// [`lemma_quiet_energy_is_exact`].
pub open spec fn sum_sqr_shift_spec(x: Seq<i16>) -> (i32, u32) {
    let shift = energy_shift_spec(x);
    (energy_pass_spec(x, x.len() as int, shift, 0), shift)
}

proof fn lemma_square_bound(a: i16)
    ensures
        0 <= a * a <= 0x4000_0000,
{
    assert(0 <= a * a <= 0x4000_0000) by (nonlinear_arith)
        requires
            -0x8000 <= a <= 0x7fff,
    ;
}

fn square(a: i16) -> (r: u32)
    ensures
        r == a * a,
        r <= 0x4000_0000,
{
    proof {
        lemma_square_bound(a);
    }
    ((a as i32) * (a as i32)) as u32
}

fn energy_pass(x: &[i16], shift: u32, init: i32) -> (r: i32)
    requires
        shift < 32,
        0 < x@.len() <= i32::MAX,
    ensures
        r == energy_pass_spec(x@, x@.len() as int, shift, init),
        clz_spec(r) >= shift,
{
    let len: usize = x.len();
    let mut nrg: i32 = init;
    let mut i: usize = 0;
    while i + 1 < len
        invariant
            len == x@.len(),
            0 < len <= i32::MAX,
            shift < 32,
            i % 2 == 0,
            i <= len,
            nrg == energy_pass_spec(x@, i as int, shift, init),
            i > 0 ==> clz_spec(nrg) >= shift,
        decreases len - i,
    {
        let t: u32 = square(x[i]) + square(x[i + 1]);
        let u: u32 = (nrg as u32).wrapping_add(t);
        nrg = (u >> shift) as i32;
        proof {
            lemma_clz_after_shr(u, shift);
            lemma_u32_through_i32(u >> shift);
        }
        i = i + 2;
    }
    if i < len {
        let t: u32 = square(x[i]);
        let u: u32 = (nrg as u32).wrapping_add(t);
        nrg = (u >> shift) as i32;
        proof {
            lemma_clz_after_shr(u, shift);
            lemma_u32_through_i32(u >> shift);
        }
    }
    nrg
}

/// Reinterpreting a bit pattern as signed and back keeps it.
pub proof fn lemma_u32_through_i32(u: u32)
    ensures
        (u as i32) as u32 == u,
{
    assert((u as i32) as u32 == u) by (bit_vector);
}

/// Energy of a vector and the shift of its steps, at most three, that leaves
/// headroom in an `i32`.
pub fn sum_sqr_shift(x: &[i16]) -> (r: (i32, u32))
    requires
        0 < x@.len() <= i32::MAX,
    ensures
        r == sum_sqr_shift_spec(x@),
        r.1 <= 3,
{
    let len: i32 = x.len() as i32;
    let lz: u32 = clz(len);
    proof {
        lemma_clz(len as u32);
        lemma2_to64();
    }
    let s0: u32 = 31 - lz;
    let nrg: i32 = energy_pass(x, s0, len);
    let h: u32 = clz(nrg);
    let shift: u32 = if s0 + 3 > h {
        s0 + 3 - h
    } else {
        0
    };
    (energy_pass(x, shift, 0), shift)
}

/// Sum of the first `n` squares.
pub open spec fn energy_spec(x: Seq<i16>, n: int) -> int
    decreases n,
{
    if n <= 0 {
        0
    } else {
        energy_spec(x, n - 1) + x[n - 1] * x[n - 1]
    }
}

/// A pass adds no more than the squares, and the last of its shifts halves
/// the sum `shift` times. Without shifts it is the sum.
proof fn lemma_energy_pass(x: Seq<i16>, n: int, shift: u32, init: i32)
    requires
        0 <= n <= x.len(),
        0 <= init,
        init + energy_spec(x, n) <= i32::MAX,
        shift < 32,
    ensures
        0 <= energy_pass_spec(x, n, shift, init) <= init + energy_spec(x, n),
        n > 0 ==> energy_pass_spec(x, n, shift, init) <= (init + energy_spec(x, n)) / pow2(
            shift as nat,
        ) as int,
        shift == 0 ==> energy_pass_spec(x, n, shift, init) == init + energy_spec(x, n),
    decreases n,
{
    if n > 0 {
        lemma_energy_nonnegative(x, n - 1);
        lemma_energy_nonnegative(x, n - 2);
        let m: int = if n % 2 == 0 {
            n - 2
        } else {
            n - 1
        };
        lemma_square_bound(x[n - 1]);
        if n % 2 == 0 {
            lemma_square_bound(x[n - 2]);
            assert(energy_spec(x, n - 1) == energy_spec(x, n - 2) + x[n - 2] * x[n - 2]);
        }
        lemma_energy_pass(x, m, shift, init);
        let t: int = energy_spec(x, n) - energy_spec(x, m);
        let prev = energy_pass_spec(x, m, shift, init);
        let u: u32 = (prev + t) as u32;
        assert((prev as u32).wrapping_add(t as u32) == u);
        lemma_u32_shr_is_div(u, shift);
        lemma_pow2_pos(shift as nat);
        let p = pow2(shift as nat) as int;
        let e = init + energy_spec(x, n);
        assert(0 <= u as int / p <= e / p && e / p <= e) by (nonlinear_arith)
            requires
                0 <= u <= e,
                p >= 1,
        ;
        if shift == 0 {
            lemma2_to64();
            assert(u as int / p == u) by (nonlinear_arith)
                requires
                    p == 1,
            ;
        }
    }
}

/// The energy of a quiet signal is exact, and not shifted.
pub proof fn lemma_quiet_energy_is_exact(x: Seq<i16>)
    requires
        0 < x.len(),
        x.len() + energy_spec(x, x.len() as int) < 0x1000_0000,
    ensures
        sum_sqr_shift_spec(x) == (energy_spec(x, x.len() as int) as i32, 0u32),
{
    let n = x.len() as int;
    lemma_energy_nonnegative(x, n);
    let s0 = (31 - clz_spec(n as i32)) as u32;
    lemma_clz(n as u32);
    lemma2_to64();
    lemma_energy_pass(x, n, s0, n as i32);
    let first = energy_pass_spec(x, n, s0, n as i32);
    let e = n + energy_spec(x, n);
    let p = pow2(s0 as nat) as int;
    lemma_pow2_pos(s0 as nat);
    lemma_clz(first as u32);
    let h = clz_spec(first);
    if h < s0 + 3 {
        // The top bit of the first pass would lie too high.
        let a = pow2((31 - h) as nat) as int;
        lemma_pow2_adds((31 - h) as nat, s0 as nat);
        lemma_pow2_adds(29, (2 + s0 - h) as nat);
        lemma_pow2_pos((2 + s0 - h) as nat);
        lemma_fundamental_div_mod(e, p);
        lemma_mod_bound(e, p);
        assert(p * first <= p * (e / p)) by (nonlinear_arith)
            requires
                first <= e / p,
                p >= 1,
        ;
        assert(e >= 0x2000_0000) by (nonlinear_arith)
            requires
                e >= p * first,
                first >= a,
                p >= 1,
                a * p == 0x2000_0000 * pow2((2 + s0 - h) as nat),
                pow2((2 + s0 - h) as nat) >= 1,
        ;
    }
    lemma_energy_pass(x, n, 0, 0);
}

proof fn lemma_energy_nonnegative(x: Seq<i16>, n: int)
    ensures
        0 <= energy_spec(x, n),
    decreases n,
{
    if n > 0 {
        lemma_energy_nonnegative(x, n - 1);
        lemma_square_bound(x[n - 1]);
    }
}

// ---------------------------------------------------------------------
// Short-term analysis filter
// ---------------------------------------------------------------------

/// Sum of the first `j` taps of the prediction of sample `ix`.
pub open spec fn lpc_analysis_pred_spec(input: Seq<i16>, b_q12: Seq<i16>, ix: int, j: int) -> i32
    decreases j,
{
    if j <= 0 {
        0
    } else {
        lpc_analysis_pred_spec(input, b_q12, ix, j - 1).wrapping_add(
            smulbb_spec(input[ix - j] as i32, b_q12[j - 1] as i32),
        )
    }
}

/// Prediction error of sample `ix`; the first `d` are zero.
pub open spec fn lpc_analysis_sample_spec(input: Seq<i16>, b_q12: Seq<i16>, d: int, ix: int) -> i16 {
    if ix < d {
        0
    } else {
        sat16_spec(
            rshift_round_spec(
                (input[ix] as i32).wrapping_shl(12).wrapping_sub(
                    lpc_analysis_pred_spec(input, b_q12, ix, d),
                ),
                12,
            ),
        )
    }
}

pub open spec fn lpc_analysis_filter_spec(input: Seq<i16>, b_q12: Seq<i16>, d: int) -> Seq<i16> {
    Seq::new(input.len(), |ix: int| lpc_analysis_sample_spec(input, b_q12, d, ix))
}

/// Prediction error of `input` under the Q12 predictor `b_q12` of order `d`.
pub fn lpc_analysis_filter(out: &mut [i16], input: &[i16], b_q12: &[i16], d: usize)
    requires
        old(out)@.len() == input@.len(),
        1 <= d <= input@.len(),
        d <= b_q12@.len(),
    ensures
        final(out)@ == lpc_analysis_filter_spec(input@, b_q12@, d as int),
{
    let len: usize = input.len();
    let mut ix: usize = 0;
    while ix < len
        invariant
            len == input@.len(),
            out@.len() == len,
            1 <= d <= len,
            d <= b_q12@.len(),
            ix <= len,
            forall|t: int|
                0 <= t < ix ==> #[trigger] out@[t] == lpc_analysis_sample_spec(
                    input@,
                    b_q12@,
                    d as int,
                    t,
                ),
        decreases len - ix,
    {
        if ix < d {
            out[ix] = 0;
        } else {
            let mut pred: i32 = 0;
            let mut j: usize = 0;
            while j < d
                invariant
                    len == input@.len(),
                    d <= ix < len,
                    d <= b_q12@.len(),
                    j <= d,
                    pred == lpc_analysis_pred_spec(input@, b_q12@, ix as int, j as int),
                decreases d - j,
            {
                pred = pred.wrapping_add(smulbb(input[ix - 1 - j] as i32, b_q12[j] as i32));
                j = j + 1;
            }
            let err: i32 = (input[ix] as i32).wrapping_shl(12).wrapping_sub(pred);
            out[ix] = sat16(rshift_round(err, 12));
        }
        ix = ix + 1;
    }
    assert(out@ =~= lpc_analysis_filter_spec(input@, b_q12@, d as int));
}

// ---------------------------------------------------------------------
// Division in a chosen Q domain
// ---------------------------------------------------------------------

/// Absolute value of an `i32` other than the minimum.
pub open spec fn abs_spec(a: i32) -> i32 {
    if a < 0 {
        (-a) as i32
    } else {
        a
    }
}

pub fn abs(a: i32) -> (r: i32)
    requires
        a != i32::MIN,
    ensures
        r == abs_spec(a),
        r >= 0,
{
    if a < 0 {
        -a
    } else {
        a
    }
}

/// Bits by which a number can be shifted left without touching its sign.
pub open spec fn headroom_spec(a: i32) -> u32 {
    (clz_spec(abs_spec(a)) - 1) as u32
}

pub fn headroom(a: i32) -> (r: u32)
    requires
        a != i32::MIN,
    ensures
        r == headroom_spec(a),
        r <= 31,
        a != 0 ==> r <= 30,
{
    proof {
        lemma_clz(abs_spec(a) as u32);
        lemma2_to64();
    }
    clz(abs(a)) - 1
}

/// A normalized divisor has between 15 and 16 significant bits in its top
/// half.
pub proof fn lemma_normalized(b: i32)
    requires
        b != 0,
        b != i32::MIN,
    ensures
        headroom_spec(b) <= 30,
        b > 0 ==> 0x4000_0000 <= b.wrapping_shl(headroom_spec(b)),
        b < 0 ==> i32::MIN < b.wrapping_shl(headroom_spec(b)) <= -0x4000_0000,
        b > 0 ==> 0x4000 <= b.wrapping_shl(headroom_spec(b)) >> 16u32 <= 0x7fff,
        b < 0 ==> -0x8000 <= b.wrapping_shl(headroom_spec(b)) >> 16u32 <= -0x4000,
{
    let m: i32 = abs_spec(b);
    lemma_clz(m as u32);
    lemma2_to64();
    let lz: u32 = clz_spec(m);
    let h: u32 = headroom_spec(b);
    lemma_pow2_adds((31 - lz) as nat, h as nat);
    lemma_pow2_adds((32 - lz) as nat, h as nat);
    lemma_pow2_pos(h as nat);
    let p: int = pow2(h as nat) as int;
    assert(0x4000_0000 <= m * p < 0x8000_0000) by (nonlinear_arith)
        requires
            pow2((31 - lz) as nat) <= m < pow2((32 - lz) as nat),
            pow2((31 - lz) as nat) * p == 0x4000_0000,
            pow2((32 - lz) as nat) * p == 0x8000_0000,
            p > 0,
    ;
    if b < 0 {
        assert(b * p == -(m * p)) by (nonlinear_arith)
            requires
                b == -m,
        ;
    }
    lemma_shl_i32(b, h);
    lemma_shr_i32(b.wrapping_shl(h), 16);
}

/// Approximation of `(a << qres) / b`.
pub open spec fn div32_varq_spec(a32: i32, b32: i32, qres: u32) -> i32 {
    let a_headrm = headroom_spec(a32);
    let a_nrm = a32.wrapping_shl(a_headrm);
    let b_headrm = headroom_spec(b32);
    let b_nrm = b32.wrapping_shl(b_headrm);
    let b_inv = trunc_div(0x1fff_ffff, (b_nrm >> 16u32) as int) as i32;
    let first = smulwb_spec(a_nrm, b_inv);
    let residual = a_nrm.wrapping_sub(smmul_spec(b_nrm, first).wrapping_shl(3));
    let refined = smlawb_spec(first, residual, b_inv);
    let lshift = 29 + a_headrm - b_headrm - qres;
    if lshift < 0 {
        refined.wrapping_shl((-lshift) as u32)
    } else if lshift < 32 {
        refined >> (lshift as u32)
    } else {
        0
    }
}

pub fn div32_varq(a32: i32, b32: i32, qres: u32) -> (r: i32)
    requires
        b32 != 0,
        a32 != i32::MIN,
        b32 != i32::MIN,
        qres < 0x4000_0000,
    ensures
        r == div32_varq_spec(a32, b32, qres),
{
    let a_headrm: u32 = headroom(a32);
    let a_nrm: i32 = a32.wrapping_shl(a_headrm);
    let b_headrm: u32 = headroom(b32);
    let b_nrm: i32 = b32.wrapping_shl(b_headrm);
    proof {
        lemma_normalized(b32);
        lemma_trunc_div_bound(0x1fff_ffff, (b_nrm >> 16u32) as int);
    }
    let b_inv: i32 = div32_16(0x1fff_ffff, b_nrm >> 16u32);
    let first: i32 = smulwb(a_nrm, b_inv);
    let residual: i32 = a_nrm.wrapping_sub(smmul(b_nrm, first).wrapping_shl(3));
    let refined: i32 = smlawb(first, residual, b_inv);
    let lshift: i32 = 29 + a_headrm as i32 - b_headrm as i32 - qres as i32;
    if lshift < 0 {
        refined.wrapping_shl((-lshift) as u32)
    } else if lshift < 32 {
        refined >> (lshift as u32)
    } else {
        0
    }
}

// ---------------------------------------------------------------------
// Sorting
// ---------------------------------------------------------------------

/// Replacing one element exchanges it in the multiset.
proof fn lemma_update_multiset(s: Seq<i16>, i: int, v: i16)
    requires
        0 <= i < s.len(),
    ensures
        s.update(i, v).to_multiset() =~= s.to_multiset().remove(s[i]).insert(v),
{
    let t = s.update(i, v);
    s.to_multiset_ensures();
    t.to_multiset_ensures();
    assert(t.remove(i) =~= s.remove(i));
    assert(s.remove(i).to_multiset() =~= s.to_multiset().remove(s[i]));
    assert(t.remove(i).to_multiset() =~= t.to_multiset().remove(t[i]));
    assert(t.to_multiset().remove(v) =~= s.to_multiset().remove(s[i]));
    assert(t.contains(v)) by {
        assert(t[i] == v);
    }
    assert(t.to_multiset().count(v) > 0);
    assert(t.to_multiset() =~= t.to_multiset().remove(v).insert(v));
}

pub open spec fn is_sorted(s: Seq<i16>) -> bool {
    forall|i: int, j: int| 0 <= i <= j < s.len() ==> s[i] <= s[j]
}

/// Sorts the whole vector in increasing order.
pub fn insertion_sort_increasing_all_values_int16(a: &mut [i16])
    ensures
        final(a)@.len() == old(a)@.len(),
        is_sorted(final(a)@),
        final(a)@.to_multiset() == old(a)@.to_multiset(),
{
    let n: usize = a.len();
    let mut i: usize = 1;
    while i < n
        invariant
            n == a@.len(),
            n == old(a)@.len(),
            1 <= i,
            i <= n || n == 0,
            forall|p: int, q: int| 0 <= p <= q < i && q < n ==> a@[p] <= a@[q],
            a@.to_multiset() == old(a)@.to_multiset(),
        decreases n - i,
    {
        let value: i16 = a[i];
        let mut j: usize = i;
        proof {
            assert(a@.update(j as int, value) =~= a@);
        }
        while j > 0 && value < a[j - 1]
            invariant
                n == a@.len(),
                j <= i < n,
                forall|p: int, q: int| 0 <= p <= q <= i && p != j && q != j ==> a@[p] <= a@[q],
                forall|q: int| j < q <= i ==> value < a@[q],
                a@.update(j as int, value).to_multiset() == old(a)@.to_multiset(),
            decreases j,
        {
            let ghost before = a@;
            let w: i16 = a[j - 1];
            a[j] = w;
            proof {
                let s = before.update(j as int, value);
                lemma_update_multiset(s, j as int, w);
                let t = s.update(j as int, w);
                lemma_update_multiset(t, j - 1, value);
                assert(a@.update(j - 1, value) =~= t.update(j - 1, value));
                assert(s.to_multiset() =~= t.update(j - 1, value).to_multiset()) by {
                    s.to_multiset_ensures();
                    assert(s[j as int] == value);
                    assert(s.contains(value));
                }
            }
            j = j - 1;
        }
        a[j] = value;
        i = i + 1;
    }
}

} // verus!
