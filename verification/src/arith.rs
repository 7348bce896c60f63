use vstd::prelude::*;
use vstd::arithmetic::power2::*;
use vstd::bits::*;

verus! {

/// Rust's integer division `/`, which rounds toward zero.
pub open spec fn tdiv(a: int, b: int) -> int {
    if b == 0 {
        0
    } else if (a >= 0) == (b > 0) {
        if a >= 0 { a / b } else { (-a) / (-b) }
    } else {
        if a >= 0 { -(a / (-b)) } else { -((-a) / b) }
    }
}

/// `v` limited to the closed range `[lo, hi]`.
pub open spec fn clamp(v: int, lo: int, hi: int) -> int {
    if v < lo { lo } else if v > hi { hi } else { v }
}

/// The smaller of `a` and `b`.
pub open spec fn min(a: int, b: int) -> int {
    if a <= b { a } else { b }
}

/// Absolute value.
pub open spec fn abs(v: int) -> int {
    if v < 0 { -v } else { v }
}

/// Arithmetic right shift by `k` bits: floor division by `2^k`.
pub open spec fn shr(a: int, k: nat) -> int {
    a / (pow2(k) as int)
}

/// `v` limited to `[lo, hi]`.
pub fn clamp_i32(v: i32, lo: i32, hi: i32) -> (r: i32)
    requires lo <= hi,
    ensures r == clamp(v as int, lo as int, hi as int),
{
    if v < lo { lo } else if v > hi { hi } else { v }
}

/// `a >> 16` on an `i64` is floor division by 2^16.
pub proof fn lemma_i64_shr16(a: i64)
    ensures
        (a >> 16u64) as int == shr(a as int, 16),
        shr(a as int, 16) == a as int / 65536,
{
    assert((a >> 16u64) == a / 65536) by (bit_vector);
    lemma2_to64();
}

/// `a >> 16` on an `i32` is floor division by 2^16, `a & 0xffff` is the remainder.
pub proof fn lemma_i32_shr16_mask(a: i32)
    ensures
        (a >> 16i32) as int == shr(a as int, 16),
        (a & 65535i32) as int == a as int % 65536,
{
    assert((a >> 16i32) == a / 65536) by (bit_vector);
    assert((a & 65535i32) == a % 65536) by (bit_vector);
    lemma2_to64();
}

/// Left shift of a nonnegative `i32` without overflow multiplies by a power of two.
pub proof fn lemma_i32_shl_nonneg(a: i32, s: u32)
    requires
        s < 31,
        0 <= a,
        a * pow2(s as nat) <= i32::MAX,
    ensures
        (a << s) as int == a * pow2(s as nat),
{
    let ua = a as u32;
    lemma_pow2_strictly_increases(s as nat, 31);
    lemma2_to64();
    lemma_u32_shl_is_mul(ua, s);
    assert((ua << s) as i32 == a << s) by (bit_vector)
        requires ua == a as u32, 0 <= a, s < 31;
}

/// Right shift of a nonnegative `i32` divides by a power of two.
pub proof fn lemma_i32_shr_nonneg(a: i32, s: u32)
    requires
        s < 31,
        0 <= a,
    ensures
        (a >> s) as int == (a as int) / (pow2(s as nat) as int),
{
    let ua = a as u32;
    lemma_u32_shr_is_div(ua, s);
    assert((ua >> s) as i32 == a >> s) by (bit_vector)
        requires ua == a as u32, 0 <= a, s < 31;
}

} // verus!

verus! {

/// `a >> 1` on an `i64` is floor division by 2.
pub proof fn lemma_i64_shr1(a: i64)
    ensures
        (a >> 1u64) as int == shr(a as int, 1),
        shr(a as int, 1) == a as int / 2,
{
    assert((a >> 1u64) == a / 2) by (bit_vector);
    lemma2_to64();
}

/// `a >> 31` on an `i64` is floor division by 2^31.
pub proof fn lemma_i64_shr31(a: i64)
    ensures
        (a >> 31u64) as int == shr(a as int, 31),
        shr(a as int, 31) == a as int / 0x8000_0000,
{
    assert((a >> 31u64) == a / 0x8000_0000) by (bit_vector);
    lemma2_to64();
}

} // verus!

verus! {

/// The product of two `i32` values fits in an `i64`.
pub proof fn lemma_i32_mul_fits(a: i32, b: i32)
    ensures
        -0x4000_0000_0000_0000 < a * b <= 0x4000_0000_0000_0000,
{
    assert(-0x4000_0000_0000_0000 < a * b <= 0x4000_0000_0000_0000) by (nonlinear_arith)
        requires -0x8000_0000 <= a < 0x8000_0000, -0x8000_0000 <= b < 0x8000_0000;
}

} // verus!

verus! {

/// Position `j` of row `t` in rows of `n`: its row is `t` and its column `j - t * n`.
pub proof fn lemma_row_col(j: int, t: int, n: int)
    requires
        n > 0,
        t * n <= j < t * n + n,
    ensures
        j / n == t,
        j % n == j - t * n,
{
    vstd::arithmetic::div_mod::lemma_fundamental_div_mod_converse(j, n, t, j - t * n);
}

/// Row `t` of a length that is a multiple of `n` ends within it.
pub proof fn lemma_row_fits(len: int, t: int, n: int)
    requires
        n > 0,
        0 <= t < len / n,
    ensures
        t * n + n <= len,
        0 <= t * n,
{
    assert(t * n + n <= len) by (nonlinear_arith)
        requires n > 0, 0 <= t < len / n;
    assert(0 <= t * n) by (nonlinear_arith)
        requires n > 0, 0 <= t;
}

} // verus!

verus! {

/// `a >> 8` on an `i32` is floor division by 2^8.
pub proof fn lemma_i32_shr8(a: i32)
    ensures
        (a >> 8i32) as int == shr(a as int, 8),
        shr(a as int, 8) == a as int / 256,
{
    assert((a >> 8i32) == a / 256) by (bit_vector);
    lemma2_to64();
}

} // verus!
