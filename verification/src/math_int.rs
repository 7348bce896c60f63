use vstd::prelude::*;
use vstd::arithmetic::power2::*;
use crate::arith::{shr, tdiv, clamp, clamp_i32, lemma_i64_shr16, lemma_i32_shr16_mask, lemma_i32_shl_nonneg, lemma_i32_shr_nonneg};

verus! {

/// Number of fractional bits of the Q16.16 fixed-point format.
pub const FIXED_POINT_SHIFT: i32 = 16;

/// The value 1.0 in Q16.16.
pub const FIXED_POINT_ONE: i32 = 65536;

/// The approximation of `exp` in Q16.16 that [`exp_approx_q16`] computes.
///
/// Inputs below -10.0 give 0, inputs above 10.0 give `i32::MAX`. In between,
/// `x * log2(e)` (with `log2(e)` as 94548 / 2^16, rounded down) is split into
/// an integer part `n` and a fraction `f`, and `2^f` is approximated by `1 + f`,
/// so the result is `(1 + f) * 2^n`, rounded down when `n < 0`.
pub open spec fn exp_q16(x: int) -> int {
    if x < -10 * 65536 {
        0
    } else if x > 10 * 65536 {
        i32::MAX as int
    } else {
        let xs = shr(x * 94548, 16);
        let n = shr(xs, 16);
        let f = xs % 65536;
        if n >= 0 {
            (65536 + f) * pow2(n as nat)
        } else {
            (65536 + f) / (pow2((-n) as nat) as int)
        }
    }
}

/// Approximates exp(x) where x is in Q16.16 fixed-point format.
/// Returns exp(x) in Q16.16 format.
/// Uses the property: exp(x) = 2^(x * log2(e))
pub fn exp_approx_q16(x: i32) -> (r: i32)
    ensures
        r as int == exp_q16(x as int),
{
    if x < -10 * FIXED_POINT_ONE {
        return 0;
    }
    if x > 10 * FIXED_POINT_ONE {
        return i32::MAX;
    }
    let prod: i64 = x as i64 * 94548;
    proof {
        lemma_i64_shr16(prod);
        lemma2_to64();
    }
    let x_scaled: i32 = (prod >> 16u64) as i32;
    proof {
        lemma_i32_shr16_mask(x_scaled);
    }
    let int_part: i32 = x_scaled >> 16i32;
    let frac_part: i32 = x_scaled & 65535i32;
    let approx_frac: i32 = FIXED_POINT_ONE + frac_part;
    assert(-15 <= int_part <= 14);
    if int_part >= 0 {
        proof {
            if int_part < 14 {
                lemma_pow2_strictly_increases(int_part as nat, 14);
            }
            assert(approx_frac * pow2(int_part as nat) <= 131071 * pow2(14)) by (nonlinear_arith)
                requires approx_frac <= 131071, pow2(int_part as nat) <= pow2(14);
            lemma_i32_shl_nonneg(approx_frac, int_part as u32);
        }
        approx_frac << (int_part as u32)
    } else {
        proof {
            lemma_i32_shr_nonneg(approx_frac, (-int_part) as u32);
        }
        approx_frac >> ((-int_part) as u32)
    }
}

} // verus!

verus! {

/// Range of [`exp_q16`]; below 10.0 the result leaves room for adding 1.0.
pub proof fn lemma_exp_q16_bounds(y: int)
    ensures
        0 <= exp_q16(y) <= i32::MAX,
        y <= 10 * 65536 ==> exp_q16(y) <= 1532100608,
{
    lemma2_to64();
    if -10 * 65536 <= y <= 10 * 65536 {
        let xs = shr(y * 94548, 16);
        let n = shr(xs, 16);
        let f = xs % 65536;
        assert(-945480 <= xs <= 945480);
        assert(-15 <= n <= 14);
        if n >= 0 {
            if n < 14 {
                lemma_pow2_strictly_increases(n as nat, 14);
                assert((65536 + f) * pow2(n as nat) <= 131071 * pow2(13)) by (nonlinear_arith)
                    requires 0 <= f < 65536, pow2(n as nat) <= pow2(13);
            } else {
                assert(f <= 27976);
                assert((65536 + f) * pow2(n as nat) <= 93512 * pow2(14)) by (nonlinear_arith)
                    requires 0 <= f <= 27976, pow2(n as nat) == pow2(14);
            }
            assert(0 <= (65536 + f) * pow2(n as nat)) by (nonlinear_arith)
                requires 0 <= f;
        } else {
            lemma_pow2_pos((-n) as nat);
            assert(0 <= (65536 + f) / (pow2((-n) as nat) as int) <= 65536 + f) by (nonlinear_arith)
                requires 0 <= f, pow2((-n) as nat) >= 1;
        }
    }
}

/// At or below 0 the approximation is at most 1.0, and exactly 1.0 at 0.
pub proof fn lemma_exp_q16_nonpos(y: int)
    requires
        y <= 0,
    ensures
        0 <= exp_q16(y) <= 65536,
        y == 0 ==> exp_q16(y) == 65536,
{
    lemma2_to64();
    lemma_exp_q16_bounds(y);
    if -10 * 65536 <= y <= 0 {
        let xs = shr(y * 94548, 16);
        let nn = shr(xs, 16);
        let f = xs % 65536;
        assert(xs == (y * 94548) / 65536);
        assert(y * 94548 <= 0);
        assert(xs <= 0);
        assert(nn == xs / 65536);
        if xs == 0 {
            assert(nn == 0);
            assert(f == 0);
            assert(exp_q16(y) == (65536 + f) * pow2(0));
        } else {
            assert(nn < 0);
            lemma_pow2_pos((-nn) as nat);
            lemma_pow2_unfold((-nn) as nat);
            assert(pow2((-nn) as nat) >= 2);
            assert(0 <= f < 65536);
            assert(exp_q16(y) == (65536 + f) / (pow2((-nn) as nat) as int));
            assert((65536 + f) / (pow2((-nn) as nat) as int) <= 65536) by (nonlinear_arith)
                requires 0 <= f < 65536, pow2((-nn) as nat) >= 2;
        }
    }
}

/// The value of [`exp_q16`] once `x * log2(e)` is known as `xs` (Q16.16):
/// `(1 + f) * 2^n` for its integer part `n` and fraction `f`.
pub open spec fn exp_of_scaled(xs: int) -> int {
    let n = shr(xs, 16);
    let f = xs % 65536;
    if n >= 0 {
        (65536 + f) * pow2(n as nat)
    } else {
        (65536 + f) / (pow2((-n) as nat) as int)
    }
}

proof fn lemma_exp_of_scaled_step(xs: int)
    ensures
        exp_of_scaled(xs) <= exp_of_scaled(xs + 1),
{
    lemma2_to64();
    let n = xs / 65536;
    let f = xs % 65536;
    vstd::arithmetic::div_mod::lemma_fundamental_div_mod(xs, 65536);
    assert(shr(xs, 16) == n);
    assert(0 <= f < 65536);
    if f < 65535 {
        assert((xs + 1) / 65536 == n && (xs + 1) % 65536 == f + 1) by {
            vstd::arithmetic::div_mod::lemma_fundamental_div_mod_converse(xs + 1, 65536, n, f + 1);
        }
        assert(shr(xs + 1, 16) == n);
        assert((xs + 1) % 65536 == f + 1);
        if n >= 0 {
            assert(exp_of_scaled(xs) == (65536 + f) * pow2(n as nat));
            assert(exp_of_scaled(xs + 1) == (65536 + f + 1) * pow2(n as nat));
            lemma_pow2_pos(n as nat);
            assert((65536 + f) * pow2(n as nat) <= (65536 + f + 1) * pow2(n as nat)) by (nonlinear_arith)
                requires pow2(n as nat) >= 1;
        } else {
            lemma_pow2_pos((-n) as nat);
            assert(exp_of_scaled(xs) == (65536 + f) / (pow2((-n) as nat) as int));
            assert(exp_of_scaled(xs + 1) == (65536 + f + 1) / (pow2((-n) as nat) as int));
            vstd::arithmetic::div_mod::lemma_div_is_ordered(65536 + f, 65536 + f + 1, pow2((-n) as nat) as int);
        }
    } else {
        assert((xs + 1) / 65536 == n + 1 && (xs + 1) % 65536 == 0) by {
            vstd::arithmetic::div_mod::lemma_fundamental_div_mod_converse(xs + 1, 65536, n + 1, 0);
        }
        assert(shr(xs + 1, 16) == n + 1);
        assert((xs + 1) % 65536 == 0);
        if n >= 0 {
            assert(exp_of_scaled(xs) == 131071 * pow2(n as nat));
            assert(exp_of_scaled(xs + 1) == 65536 * pow2((n + 1) as nat));
            lemma_pow2_unfold((n + 1) as nat);
            lemma_pow2_pos(n as nat);
            assert(131071 * pow2(n as nat) <= 65536 * (2 * pow2(n as nat))) by (nonlinear_arith)
                requires pow2(n as nat) >= 1;
        } else if n == -1 {
            assert(pow2(1) == 2);
            assert(pow2(0) == 1);
            assert(exp_of_scaled(xs) == 131071int / 2);
            assert(exp_of_scaled(xs + 1) == 65536 * pow2(0));
        } else {
            let m = (-n) as nat;
            lemma_pow2_unfold(m);
            lemma_pow2_pos((m - 1) as nat);
            let p = pow2((m - 1) as nat) as int;
            assert(pow2(m) as int == 2 * p);
            vstd::arithmetic::div_mod::lemma_div_is_ordered(131071, 131072, 2 * p);
            vstd::arithmetic::div_mod::lemma_div_denominator(131072, 2, p);
            assert(131072int / (2 * p) == 65536int / p);
            assert(exp_of_scaled(xs) == 131071int / (2 * p));
            assert(exp_of_scaled(xs + 1) == 65536int / (pow2((-(n + 1)) as nat) as int));
            assert((-(n + 1)) as nat == (m - 1) as nat);
        }
    }
}

proof fn lemma_exp_of_scaled_mono(a: int, b: int)
    requires
        a <= b,
    ensures
        exp_of_scaled(a) <= exp_of_scaled(b),
    decreases b - a,
{
    if a < b {
        lemma_exp_of_scaled_step(a);
        lemma_exp_of_scaled_mono(a + 1, b);
    }
}

/// The approximate exponential never decreases: `x <= y` gives
/// `exp(x) <= exp(y)`.
pub proof fn lemma_exp_q16_monotone(x: int, y: int)
    requires
        x <= y,
    ensures
        exp_q16(x) <= exp_q16(y),
{
    lemma_exp_q16_bounds(x);
    lemma_exp_q16_bounds(y);
    if -10 * 65536 <= x && y <= 10 * 65536 {
        lemma2_to64();
        assert(shr(x * 94548, 16) <= shr(y * 94548, 16)) by {
            vstd::arithmetic::div_mod::lemma_div_is_ordered(x * 94548, y * 94548, 65536);
        }
        lemma_exp_of_scaled_mono(shr(x * 94548, 16), shr(y * 94548, 16));
        assert(exp_q16(x) == exp_of_scaled(shr(x * 94548, 16)));
        assert(exp_q16(y) == exp_of_scaled(shr(y * 94548, 16)));
    }
}

/// Index of the highest set bit of `x` (0 for `x <= 1`).
pub open spec fn floor_log2(x: nat) -> nat
    decreases x,
{
    if x < 2 { 0 } else { 1 + floor_log2(x / 2) }
}

/// The approximation of `1 / sqrt(x)` in Q16.16 that [`rsqrt_approx_i32`] computes:
/// `sqrt(x)` is approximated by `2^(m / 2)` where `m` is the index of the highest set bit.
pub open spec fn rsqrt_q16(x: nat) -> nat {
    if x == 0 { 0 } else { 65536nat / pow2(floor_log2(x) / 2) }
}

proof fn lemma_floor_log2_between(x: nat, m: nat)
    requires pow2(m) <= x < pow2(m + 1),
    ensures floor_log2(x) == m,
    decreases m,
{
    lemma_pow2_unfold(m + 1);
    if m == 0 {
        lemma2_to64();
    } else {
        lemma_pow2_unfold(m);
        assert(pow2((m - 1) as nat) <= x / 2 < pow2(m));
        lemma_floor_log2_between(x / 2, (m - 1) as nat);
    }
}

/// Approximates 1 / sqrt(x) where x is a standard u32 integer.
/// Returns the result in Q16.16 fixed-point format.
pub fn rsqrt_approx_i32(x: u32) -> (r: u32)
    ensures
        r as nat == rsqrt_q16(x as nat),
{
    if x == 0 {
        return 0;
    }
    let lz = x.leading_zeros();
    proof {
        vstd::std_specs::bits::axiom_u32_leading_zeros(x);
    }
    let msb: u32 = 31 - lz;
    proof {
        let m = msb;
        assert((x >> m) & 1 != 0);
        assert(x >> (m + 1) as u32 == 0) by (bit_vector)
            requires x >> ((32 - lz) as u32) == 0, m == 31 - lz, lz < 32;
        assert((x >> m) == 1u32) by (bit_vector)
            requires (x >> m) & 1 != 0, x >> ((m + 1) as u32) == 0u32, m < 32;
        vstd::bits::lemma_u32_shr_is_div(x, m);
        if m < 31 {
            vstd::bits::lemma_u32_shr_is_div(x, (m + 1) as u32);
        } else {
            lemma2_to64();
        }
        lemma_pow2_pos(m as nat);
        lemma_pow2_unfold((m + 1) as nat);
        assert(pow2(m as nat) <= x) by {
            vstd::arithmetic::div_mod::lemma_fundamental_div_mod(x as int, pow2(m as nat) as int);
        }
        assert(x < pow2((m + 1) as nat)) by {
            vstd::arithmetic::div_mod::lemma_fundamental_div_mod(x as int, pow2(m as nat) as int);
            vstd::arithmetic::div_mod::lemma_mod_bound(x as int, pow2(m as nat) as int);
        }
        lemma_floor_log2_between(x as nat, m as nat);
    }
    let half: u32 = msb / 2;
    proof {
        lemma2_to64();
        if half < 15 {
            lemma_pow2_strictly_increases(half as nat, 15);
        }
        vstd::bits::lemma_u32_shl_is_mul(1u32, half);
    }
    let sqrt_approx: u32 = 1u32 << half;
    let one_q16: u32 = 65536;
    one_q16 / sqrt_approx
}

proof fn lemma_floor_log2_below(x: nat, k: nat)
    requires
        k >= 1,
        x < pow2(k),
    ensures
        floor_log2(x) < k,
    decreases k,
{
    lemma_pow2_unfold(k);
    if x >= 2 {
        if k == 1 {
            lemma2_to64();
        } else {
            lemma_floor_log2_below(x / 2, (k - 1) as nat);
        }
    }
}

/// For every positive input the approximate inverse square root is positive
/// and at most 1.0: `2 <= rsqrt(x) <= 65536` in Q16.16.
pub proof fn lemma_rsqrt_bounds(x: u32)
    requires
        x > 0,
    ensures
        2 <= rsqrt_q16(x as nat) <= 65536,
{
    lemma2_to64();
    lemma_floor_log2_below(x as nat, 32);
    let k = floor_log2(x as nat) / 2;
    assert(k <= 15);
    lemma_pow2_pos(k);
    if k < 15 {
        lemma_pow2_strictly_increases(k, 15);
    }
    assert(pow2(k) <= 32768);
    assert(65536nat / pow2(k) >= 2) by (nonlinear_arith)
        requires 1 <= pow2(k) <= 32768;
    assert(65536nat / pow2(k) <= 65536) by (nonlinear_arith)
        requires 1 <= pow2(k);
}

proof fn lemma_floor_log2_monotone(x: nat, y: nat)
    requires
        x <= y,
    ensures
        floor_log2(x) <= floor_log2(y),
    decreases y,
{
    if x >= 2 {
        lemma_floor_log2_monotone(x / 2, y / 2);
    }
}

proof fn lemma_floor_log2_brackets(x: nat)
    requires
        x >= 1,
    ensures
        pow2(floor_log2(x)) <= x < pow2(floor_log2(x) + 1),
    decreases x,
{
    lemma_pow2_unfold(floor_log2(x) + 1);
    if x < 2 {
        lemma2_to64();
    } else {
        lemma_floor_log2_brackets(x / 2);
        lemma_pow2_unfold(floor_log2(x / 2) + 1);
    }
}

/// A larger input never gets a larger approximate inverse square root.
pub proof fn lemma_rsqrt_monotone(x: u32, y: u32)
    requires
        0 < x <= y,
    ensures
        rsqrt_q16(y as nat) <= rsqrt_q16(x as nat),
{
    lemma_floor_log2_monotone(x as nat, y as nat);
    let kx = floor_log2(x as nat) / 2;
    let ky = floor_log2(y as nat) / 2;
    assert(kx <= ky);
    lemma_pow2_pos(kx);
    if kx < ky {
        lemma_pow2_strictly_increases(kx, ky);
    }
    vstd::arithmetic::div_mod::lemma_div_is_ordered_by_denominator(65536, pow2(kx) as int, pow2(ky) as int);
}

/// The approximate inverse square root lies between `1 / sqrt(x)` and
/// `2 / sqrt(x)` (in Q16.16): `2^32 <= r * r * x < 2^34`.
pub proof fn lemma_rsqrt_brackets(x: u32)
    requires
        x > 0,
    ensures
        0x1_0000_0000 <= rsqrt_q16(x as nat) * rsqrt_q16(x as nat) * x < 0x4_0000_0000,
{
    lemma2_to64();
    let m = floor_log2(x as nat);
    lemma_floor_log2_below(x as nat, 32);
    lemma_floor_log2_brackets(x as nat);
    let k = m / 2;
    assert(k <= 15);
    let e = (16 - k) as nat;
    lemma_pow2_adds(e, k);
    assert(e + k == 16);
    lemma_pow2_pos(k);
    assert(65536nat / pow2(k) == pow2(e)) by {
        vstd::arithmetic::div_mod::lemma_div_multiples_vanish(pow2(e) as int, pow2(k) as int);
    }
    let r = pow2(e);
    assert(rsqrt_q16(x as nat) == r);
    lemma_pow2_adds(e, e);
    lemma_pow2_adds(e + e, m);
    lemma_pow2_adds(e + e, m + 1);
    let lo = pow2(e + e) * pow2(m);
    let hi = pow2(e + e) * pow2(m + 1);
    lemma_pow2_pos(e + e);
    assert(lo <= r * r * x < hi) by (nonlinear_arith)
        requires
            r * r == pow2(e + e),
            pow2(m) <= x < pow2(m + 1),
            pow2(e + e) >= 1,
            lo == pow2(e + e) * pow2(m),
            hi == pow2(e + e) * pow2(m + 1);
    assert(e + e + m >= 32);
    assert(e + e + m + 1 <= 34);
    if e + e + m > 32 {
        lemma_pow2_strictly_increases(32, e + e + m);
    }
    if e + e + m + 1 < 34 {
        lemma_pow2_strictly_increases(e + e + m + 1, 34);
    }
    assert(pow2(32) == 0x1_0000_0000);
    assert(pow2(34) == 0x4_0000_0000) by {
        lemma2_to64_rest();
    }
}

/// The approximation of `silu(x) = x / (1 + exp(-x))` that [`silu_approx_i8`] computes,
/// with the division done in Q16.16 and the result clamped to the `i8` range.
pub open spec fn silu_i8(x: int) -> int {
    let denom = 65536 + exp_q16(-x * 65536);
    clamp(shr(tdiv(x * 65536 * 65536, denom), 16), -128, 127)
}

/// Approximates SiLU (Swish) activation: x * sigmoid(x) = x / (1 + exp(-x))
/// Expects standard i8 input and returns standard i8, between `x` and 0.
pub fn silu_approx_i8(x: i8) -> (r: i8)
    ensures
        r as int == silu_i8(x as int),
        crate::arith::min(x as int, 0) <= r <= if x >= 0 { x as int } else { 0 },
{
    let xi: i32 = x as i32;
    assert(xi << 16u32 == xi * 65536) by (bit_vector)
        requires -128 <= xi <= 127;
    let x_q16: i32 = xi << 16u32;
    let exp_neg_x = exp_approx_q16(-x_q16);
    proof {
        lemma_exp_q16_bounds(-x_q16 as int);
    }
    let denom: i64 = FIXED_POINT_ONE as i64 + exp_neg_x as i64;
    let result: i64 = (x_q16 as i64 * FIXED_POINT_ONE as i64) / denom;
    assert(result == tdiv(x_q16 as i64 * 65536, denom as int));
    proof {
        let a = x_q16 as i64 * 65536;
        assert(-128 * 65536 * 65536 <= a <= 127 * 65536 * 65536);
        if a >= 0 {
            assert(a / (denom as int) <= a / 65536) by {
                vstd::arithmetic::div_mod::lemma_div_is_ordered_by_denominator(a as int, 65536, denom as int);
            }
        } else {
            assert((-a) / (denom as int) <= (-a) / 65536) by {
                vstd::arithmetic::div_mod::lemma_div_is_ordered_by_denominator(-a as int, 65536, denom as int);
            }
        }
        assert(a / 65536 == x_q16 as int);
        assert((-a) / 65536 == -(x_q16 as int));
        assert(x >= 0 ==> 0 <= result <= x * 65536);
        assert(x < 0 ==> x * 65536 <= result <= 0);
        lemma_i64_shr16(result);
        lemma2_to64();
        assert(shr(result as int, 16) == (result as int) / 65536);
        assert(x >= 0 ==> 0 <= (result as int) / 65536 <= x) by {
            if x >= 0 {
                vstd::arithmetic::div_mod::lemma_div_is_ordered(result as int, x * 65536, 65536);
                vstd::arithmetic::div_mod::lemma_div_multiples_vanish(x as int, 65536);
                vstd::arithmetic::div_mod::lemma_div_pos_is_pos(result as int, 65536);
            }
        }
        assert(x < 0 ==> x <= (result as int) / 65536 <= 0) by {
            if x < 0 {
                vstd::arithmetic::div_mod::lemma_div_is_ordered(x * 65536, result as int, 65536);
                vstd::arithmetic::div_mod::lemma_div_multiples_vanish(x as int, 65536);
                vstd::arithmetic::div_mod::lemma_div_is_ordered(result as int, 0, 65536);
            }
        }
    }
    let res_i32: i32 = (result >> 16u64) as i32;
    clamp_i32(res_i32, -128, 127) as i8
}

} // verus!
