use vstd::prelude::*;
use crate::arith::{shr, tdiv, abs, clamp, clamp_i32, lemma_i64_shr16, lemma_i64_shr1, lemma_i64_shr31, lemma_i32_shr8, lemma_i32_mul_fits, lemma_row_col, lemma_row_fits};
use crate::math_int::{exp_q16, exp_approx_q16, lemma_exp_q16_bounds, lemma_exp_q16_nonpos, rsqrt_q16, rsqrt_approx_i32};
use crate::types::vec101_block;

verus! {

// ---------------------------------------------------------------------------
// Activations in Q16.16
// ---------------------------------------------------------------------------

/// `x * sigmoid(x)` in Q16.16, with `sigmoid(x) = 2^32 / (2^16 + exp(-x))`
/// rounded down and the product shifted back by 16 bits.
pub open spec fn silu_q16(x: int) -> int {
    shr(x * (4294967296int / (65536 + exp_q16(-x))), 16)
}

proof fn lemma_silu_q16_range(x: int)
    requires
        x >= -655360,
    ensures
        x >= 0 ==> 0 <= silu_q16(x) <= x,
        x < 0 ==> x <= silu_q16(x) <= 0,
{
    lemma_exp_q16_bounds(-x);
    let d = 65536 + exp_q16(-x);
    let sig = 4294967296int / d;
    assert(0 <= sig <= 65536) by (nonlinear_arith)
        requires d >= 65536, sig == 4294967296int / d;
    vstd::arithmetic::power2::lemma2_to64();
    if x >= 0 {
        assert(0 <= x * sig <= x * 65536) by (nonlinear_arith)
            requires x >= 0, 0 <= sig <= 65536;
    } else {
        assert(x * 65536 <= x * sig <= 0) by (nonlinear_arith)
            requires x < 0, 0 <= sig <= 65536;
    }
}

/// SiLU in Q16.16: `x * sigmoid(x)`.
pub fn silu(x: i32) -> (r: i32)
    requires
        x >= -655360,
    ensures
        r == silu_q16(x as int),
{
    let exp_neg_x = exp_approx_q16(-x);
    proof {
        lemma_exp_q16_bounds(-x as int);
        lemma_silu_q16_range(x as int);
    }
    let denom: i32 = 65536 + exp_neg_x;
    let sigmoid: i64 = 4294967296i64 / (denom as i64);
    proof {
        assert(0 <= sigmoid <= 65536) by (nonlinear_arith)
            requires denom >= 65536, sigmoid == 4294967296int / (denom as int);
        assert(-2147483648 * 65536 <= x as i64 * sigmoid <= 2147483647 * 65536) by (nonlinear_arith)
            requires -2147483648 <= x <= 2147483647, 0 <= sigmoid <= 65536;
    }
    let prod: i64 = x as i64 * sigmoid;
    proof {
        lemma_i64_shr16(prod);
    }
    (prod >> 16u64) as i32
}

/// One element of [`swiglu`]: `silu(x) * v` in Q16.16, truncated to `i32`.
pub open spec fn swiglu_q16(x: int, v: int) -> i32 {
    shr(silu_q16(x) * v, 16) as i32
}

/// Gated SiLU in place: `x[i] = silu(x[i]) * v[i]` in Q16.16.
pub fn swiglu(x: &mut [i32], v: &[i32])
    requires
        v@.len() >= old(x)@.len(),
        forall|i: int| 0 <= i < old(x)@.len() ==> old(x)@[i] >= -655360,
    ensures
        final(x)@.len() == old(x)@.len(),
        forall|i: int|
            0 <= i < old(x)@.len() ==> #[trigger] final(x)@[i] == swiglu_q16(
                old(x)@[i] as int,
                v@[i] as int,
            ),
{
    let n = x.len();
    let mut i: usize = 0;
    while i < n
        invariant
            n == x@.len(),
            n == old(x)@.len(),
            v@.len() >= n,
            i <= n,
            forall|j: int| 0 <= j < n ==> old(x)@[j] >= -655360,
            forall|j: int| 0 <= j < i ==> #[trigger] x@[j] == swiglu_q16(old(x)@[j] as int, v@[j] as int),
            forall|j: int| i <= j < n ==> #[trigger] x@[j] == old(x)@[j],
        decreases n - i,
    {
        let s = silu(x[i]);
        proof {
            lemma_i32_mul_fits(s, v@[i as int]);
        }
        let prod: i64 = s as i64 * v[i] as i64;
        proof {
            lemma_i64_shr16(prod);
        }
        x[i] = (prod >> 16u64) as i32;
        i += 1;
    }
}

/// The argument of `tanh` in the GELU approximation, `sqrt(2/pi) * (x + 0.044715 x^3)`,
/// in Q16.16 with the constants as 52290 / 2^16 and 2930 / 2^16.
pub open spec fn gelu_inner(x: int) -> int {
    let x_sq = shr(x * x, 16);
    let x_cube = shr(x_sq * x, 16);
    shr(52290 * (x + shr(2930 * x_cube, 16)), 16)
}

/// `exp(2 * inner)` as [`gelu`] computes it, the argument truncated to `i32`.
pub open spec fn gelu_exp(x: int) -> int {
    exp_q16(((gelu_inner(x) * 2) as i32) as int)
}

/// The inputs on which [`gelu`] computes without overflow: the cube fits in
/// `i64` and `exp(2 * inner) + 1.0` fits in `i32`.
pub open spec fn gelu_defined(x: int) -> bool {
    &&& i64::MIN <= shr(x * x, 16) * x <= i64::MAX
    &&& gelu_exp(x) + 65536 <= i32::MAX
}

/// GELU in Q16.16: `x * (1 + tanh(inner)) / 2`, with
/// `tanh(inner) = (e - 1) / (e + 1)` for `e = exp(2 * inner)`.
pub open spec fn gelu_q16(x: int) -> int {
    let e = gelu_exp(x);
    let tanh = tdiv((e - 65536) * 65536, e + 65536);
    shr(shr(x * (65536 + tanh), 1), 16)
}

/// GELU with the tanh approximation, in Q16.16.
pub fn gelu(x: i32) -> (r: i32)
    requires
        gelu_defined(x as int),
    ensures
        r == gelu_q16(x as int),
{
    let c1: i64 = 2930;
    let c2: i64 = 52290;
    let xl: i64 = x as i64;
    proof {
        assert(0 <= xl * xl <= 0x4000_0000_0000_0000) by (nonlinear_arith)
            requires -2147483648 <= xl <= 2147483647;
    }
    let sq: i64 = xl * xl;
    proof {
        lemma_i64_shr16(sq);
    }
    let x_sq: i64 = sq >> 16u64;
    proof {
        assert(0 <= x_sq <= 0x4000_0000_0000) by (nonlinear_arith)
            requires x_sq == sq / 65536, 0 <= sq <= 0x4000_0000_0000_0000;
    }
    let cube: i64 = x_sq * xl;
    proof {
        lemma_i64_shr16(cube);
    }
    let x_cube: i64 = cube >> 16u64;
    proof {
        assert(-0x8000_0000_0000 <= x_cube <= 0x8000_0000_0000) by (nonlinear_arith)
            requires x_cube == cube / 65536, -0x8000_0000_0000_0000 <= cube < 0x8000_0000_0000_0000;
    }
    let t1: i64 = c1 * x_cube;
    proof {
        lemma_i64_shr16(t1);
    }
    let t2: i64 = t1 >> 16u64;
    proof {
        assert(-0x800_0000_0000 <= t2 <= 0x800_0000_0000) by (nonlinear_arith)
            requires t2 == t1 / 65536, t1 == 2930 * x_cube,
                -0x8000_0000_0000 <= x_cube <= 0x8000_0000_0000;
    }
    let t3: i64 = c2 * (xl + t2);
    proof {
        lemma_i64_shr16(t3);
    }
    let inner: i64 = t3 >> 16u64;
    assert(inner as int == gelu_inner(x as int));
    let exp2 = exp_approx_q16((inner * 2) as i32);
    proof {
        lemma_exp_q16_bounds(((inner * 2) as i32) as int);
    }
    let num: i64 = (exp2 - 65536) as i64 * 65536;
    let den: i64 = (exp2 + 65536) as i64;
    let tanh: i64 = num / den;
    proof {
        assert(-65536 <= tanh <= 65536) by {
            if num >= 0 {
                assert(num / den <= 65536) by (nonlinear_arith)
                    requires 0 <= num <= den * 65536, den > 0;
            } else {
                assert((-(num as int)) / (den as int) <= 65536) by (nonlinear_arith)
                    requires 0 < -num <= den * 65536, den > 0;
            }
        }
        assert(-0x1_0000_0000_0000 <= xl * (65536 + tanh) <= 0x1_0000_0000_0000) by (nonlinear_arith)
            requires -2147483648 <= xl <= 2147483647, -65536 <= tanh <= 65536;
    }
    let scaled: i64 = xl * (65536 + tanh);
    proof {
        lemma_i64_shr1(scaled);
    }
    let half: i64 = scaled >> 1u64;
    proof {
        lemma_i64_shr16(half);
        assert(0 <= 65536 + tanh <= 131072);
        if xl >= 0 {
            assert(0 <= xl * (65536 + tanh) <= xl * 131072) by (nonlinear_arith)
                requires xl >= 0, 0 <= 65536 + tanh <= 131072;
        } else {
            assert(xl * 131072 <= xl * (65536 + tanh) <= 0) by (nonlinear_arith)
                requires xl < 0, 0 <= 65536 + tanh <= 131072;
        }
    }
    (half >> 16u64) as i32
}

/// One element of [`geglu`]: `gelu(x) * v` in Q16.16, truncated to `i32`.
pub open spec fn geglu_q16(x: int, v: int) -> i32 {
    shr(gelu_q16(x) * v, 16) as i32
}

/// Gated GELU in place: `x[i] = gelu(x[i]) * v[i]` in Q16.16.
pub fn geglu(x: &mut [i32], v: &[i32])
    requires
        v@.len() >= old(x)@.len(),
        forall|i: int| 0 <= i < old(x)@.len() ==> gelu_defined(#[trigger] old(x)@[i] as int),
    ensures
        final(x)@.len() == old(x)@.len(),
        forall|i: int|
            0 <= i < old(x)@.len() ==> #[trigger] final(x)@[i] == geglu_q16(
                old(x)@[i] as int,
                v@[i] as int,
            ),
{
    let n = x.len();
    let mut i: usize = 0;
    while i < n
        invariant
            n == x@.len(),
            n == old(x)@.len(),
            v@.len() >= n,
            i <= n,
            forall|j: int| 0 <= j < n ==> gelu_defined(#[trigger] old(x)@[j] as int),
            forall|j: int| 0 <= j < i ==> #[trigger] x@[j] == geglu_q16(old(x)@[j] as int, v@[j] as int),
            forall|j: int| i <= j < n ==> #[trigger] x@[j] == old(x)@[j],
        decreases n - i,
    {
        let xi = x[i];
        assert(gelu_defined(old(x)@[i as int] as int));
        let g = gelu(xi);
        proof {
            lemma_i32_mul_fits(g, v@[i as int]);
        }
        let prod: i64 = g as i64 * v[i] as i64;
        proof {
            lemma_i64_shr16(prod);
        }
        x[i] = (prod >> 16u64) as i32;
        i += 1;
    }
}

/// Rotary position embedding. This version leaves `q` and `k` unchanged.
pub fn rope(q: &mut [i32], k: &mut [i32], start_pos: usize, hidden_dim: usize, head_dim: usize, base: i32)
    requires
        old(k)@.len() >= old(q)@.len(),
    ensures
        final(q)@ == old(q)@,
        final(k)@ == old(k)@,
{
    let n = q.len();
    let mut i: usize = 0;
    while i < n
        invariant
            n == old(q)@.len(),
            old(k)@.len() >= n,
            q@ == old(q)@,
            k@ == old(k)@,
            i <= n,
        decreases n - i,
    {
        let qi = q[i];
        q[i] = qi;
        let ki = k[i];
        k[i] = ki;
        i += 1;
    }
}

// ---------------------------------------------------------------------------
// RMS normalization in Q16.16
// ---------------------------------------------------------------------------

/// Sum of the squares of `c` in Q16.16, each square shifted back by 16 bits.
pub open spec fn sum_sq_q16(c: Seq<i32>) -> int
    decreases c.len(),
{
    if c.len() == 0 {
        0
    } else {
        sum_sq_q16(c.drop_last()) + shr(c.last() * c.last(), 16)
    }
}

/// Row `t` of `x` cut into rows of `n`.
pub open spec fn row_of<T>(x: Seq<T>, n: int, t: int) -> Seq<T> {
    x.subrange(t * n, t * n + n)
}

/// The mean square of a row as [`rmsnorm`] computes it: the sum divided by
/// the row length, truncated to `i32`.
pub open spec fn mean_sq_q16(c: Seq<i32>, n: int) -> i32 {
    (sum_sq_q16(c) / n) as i32
}

/// The rows [`rmsnorm`] accepts: the sum of squares fits in `i64` and the
/// mean square plus `eps` fits in `i32`.
pub open spec fn rmsnorm_row_ok(c: Seq<i32>, n: int, eps: i32) -> bool {
    &&& sum_sq_q16(c) <= i64::MAX
    &&& i32::MIN <= mean_sq_q16(c, n) + eps <= i32::MAX
}

/// `1 / rms` of a row in Q16.16.
pub open spec fn inv_rms_q16(c: Seq<i32>, n: int, eps: i32) -> int {
    rsqrt_q16((((mean_sq_q16(c, n) + eps) as i32) as u32) as nat) as int
}

/// One normalized value: `v * inv_rms * w` in Q16.16, truncated to `i32`.
pub open spec fn rmsnorm_q16(v: int, inv: int, w: int) -> i32 {
    shr(shr(v * inv, 16) * w, 16) as i32
}

proof fn lemma_sum_sq_prefix(c: Seq<i32>, m: int)
    requires
        0 <= m <= c.len(),
    ensures
        0 <= sum_sq_q16(c.take(m)) <= sum_sq_q16(c),
    decreases c.len(),
{
    if m < c.len() {
        assert(c.drop_last().take(m) =~= c.take(m));
        lemma_sum_sq_prefix(c.drop_last(), m);
        assert(c.last() * c.last() >= 0) by (nonlinear_arith);
        vstd::arithmetic::power2::lemma2_to64();
    } else {
        assert(c.take(m) =~= c);
        if c.len() > 0 {
            lemma_sum_sq_prefix(c.drop_last(), c.len() - 1);
            assert(c.drop_last().take(c.len() - 1) =~= c.drop_last());
            assert(c.last() * c.last() >= 0) by (nonlinear_arith);
            vstd::arithmetic::power2::lemma2_to64();
        }
    }
}

proof fn lemma_rsqrt_q16_bound(x: nat)
    ensures
        rsqrt_q16(x) <= 65536,
{
    if x > 0 {
        let p = vstd::arithmetic::power2::pow2(crate::math_int::floor_log2(x) / 2);
        vstd::arithmetic::power2::lemma_pow2_pos(crate::math_int::floor_log2(x) / 2);
        assert(65536nat / p <= 65536) by (nonlinear_arith)
            requires p >= 1;
    }
}

/// RMS normalization in place, row by row, each row as long as `weight`:
/// every value is scaled by the row's `1 / rms` and by its weight, in Q16.16.
pub fn rmsnorm(x: &mut [i32], weight: &[i32], eps: i32)
    requires
        0 < weight@.len() <= i64::MAX,
        old(x)@.len() % weight@.len() == 0,
        forall|t: int|
            0 <= t < old(x)@.len() / weight@.len() ==> rmsnorm_row_ok(
                #[trigger] row_of(old(x)@, weight@.len() as int, t),
                weight@.len() as int,
                eps,
            ),
    ensures
        final(x)@.len() == old(x)@.len(),
        forall|j: int|
            0 <= j < old(x)@.len() ==> #[trigger] final(x)@[j] == rmsnorm_q16(
                old(x)@[j] as int,
                inv_rms_q16(
                    row_of(old(x)@, weight@.len() as int, j / (weight@.len() as int)),
                    weight@.len() as int,
                    eps,
                ),
                weight@[j % (weight@.len() as int)] as int,
            ),
{
    let hd = weight.len();
    let len = x.len();
    let rows = len / hd;
    let ghost n = hd as int;
    let ghost ox = old(x)@;
    let mut t: usize = 0;
    let mut base: usize = 0;
    while t < rows
        invariant
            hd == weight@.len(),
            n == hd,
            0 < hd <= i64::MAX,
            len == x@.len(),
            len == ox.len(),
            ox == old(x)@,
            len % hd == 0,
            rows == len / hd,
            t <= rows,
            base == t * hd,
            forall|r: int| 0 <= r < rows ==> rmsnorm_row_ok(#[trigger] row_of(ox, n, r), n, eps),
            forall|j: int|
                0 <= j < base ==> #[trigger] x@[j] == rmsnorm_q16(
                    ox[j] as int,
                    inv_rms_q16(row_of(ox, n, j / n), n, eps),
                    weight@[j % n] as int,
                ),
            forall|j: int| base <= j < len ==> #[trigger] x@[j] == ox[j],
        decreases rows - t,
    {
        proof {
            lemma_row_fits(len as int, t as int, n);
        }
        let ghost row = row_of(ox, n, t as int);
        assert(rmsnorm_row_ok(row, n, eps));
        let mut sum_sq: i64 = 0;
        let mut m: usize = 0;
        proof {
            assert(row.take(0) =~= Seq::<i32>::empty());
        }
        while m < hd
            invariant
                hd == n,
                base + hd <= len,
                len == x@.len(),
                len == ox.len(),
                row == ox.subrange(base as int, base + hd),
                forall|j: int| base <= j < len ==> #[trigger] x@[j] == ox[j],
                sum_sq_q16(row) <= i64::MAX,
                m <= hd,
                sum_sq == sum_sq_q16(row.take(m as int)),
            decreases hd - m,
        {
            let v = x[base + m] as i64;
            proof {
                assert(row.take(m + 1).drop_last() =~= row.take(m as int));
                assert(row.take(m + 1).last() == row[m as int]);
                lemma_sum_sq_prefix(row, m + 1);
                assert(0 <= v * v <= 0x4000_0000_0000_0000) by (nonlinear_arith)
                    requires -0x8000_0000 <= v < 0x8000_0000;
            }
            let vv: i64 = v * v;
            proof {
                lemma_i64_shr16(vv);
            }
            sum_sq = sum_sq + (vv >> 16u64);
            m += 1;
        }
        proof {
            assert(row.take(n) =~= row);
            lemma_sum_sq_prefix(row, n);
        }
        let mean_sq: i32 = (sum_sq / hd as i64) as i32;
        let inv_rms = rsqrt_approx_i32((mean_sq + eps) as u32);
        proof {
            lemma_rsqrt_q16_bound((((mean_sq + eps) as i32) as u32) as nat);
        }
        let mut i: usize = 0;
        while i < hd
            invariant
                hd == n,
                hd == weight@.len(),
                base == t * hd,
                base + hd <= len,
                len == x@.len(),
                len == ox.len(),
                row == row_of(ox, n, t as int),
                inv_rms as int == inv_rms_q16(row, n, eps),
                inv_rms <= 65536,
                i <= hd,
                forall|j: int|
                    0 <= j < base + i ==> #[trigger] x@[j] == rmsnorm_q16(
                        ox[j] as int,
                        inv_rms_q16(row_of(ox, n, j / n), n, eps),
                        weight@[j % n] as int,
                    ),
                forall|j: int| base + i <= j < len ==> #[trigger] x@[j] == ox[j],
            decreases hd - i,
        {
            let v = x[base + i] as i64;
            proof {
                assert(-0x8000_0000_0000 <= v * (inv_rms as i64) <= 0x8000_0000_0000) by (nonlinear_arith)
                    requires -0x8000_0000 <= v < 0x8000_0000, 0 <= inv_rms <= 65536;
            }
            let scaled: i64 = v * inv_rms as i64;
            proof {
                lemma_i64_shr16(scaled);
            }
            let val: i64 = scaled >> 16u64;
            proof {
                assert(-0x8000_0000 <= val <= 0x8000_0000);
                assert(-0x4000_0000_0001_0000 <= val * (weight@[i as int] as i64) <= 0x4000_0000_0001_0000) by (nonlinear_arith)
                    requires -0x8000_0000 <= val <= 0x8000_0000, -0x8000_0000 <= weight@[i as int] < 0x8000_0000;
                lemma_row_col(base + i, t as int, n);
            }
            let weighted: i64 = val * weight[i] as i64;
            proof {
                lemma_i64_shr16(weighted);
            }
            x[base + i] = (weighted >> 16u64) as i32;
            i += 1;
        }
        proof {
            assert((t + 1) * hd == t * hd + hd) by (nonlinear_arith);
        }
        t += 1;
        base += hd;
    }
    proof {
        assert(base == len) by (nonlinear_arith)
            requires base == t * hd, t == rows, rows == len / hd, len % hd == 0, hd > 0;
    }
}

// ---------------------------------------------------------------------------
// Attention over a KV cache in Q16.16
// ---------------------------------------------------------------------------

/// `sum_{i < n} (a[ao + i] * b[bo + i]) >> 16`.
pub open spec fn dot_q16(a: Seq<i32>, ao: int, b: Seq<i32>, bo: int, n: nat) -> int
    decreases n,
{
    if n == 0 {
        0
    } else {
        dot_q16(a, ao, b, bo, (n - 1) as nat) + shr(a[ao + n - 1] * b[bo + n - 1], 16)
    }
}

/// Every partial sum of [`dot_q16`] up to `n` terms fits in `i64`.
pub open spec fn dot_fits(a: Seq<i32>, ao: int, b: Seq<i32>, bo: int, n: nat) -> bool {
    forall|m: nat| m <= n ==> i64::MIN <= #[trigger] dot_q16(a, ao, b, bo, m) <= i64::MAX
}

/// The largest element of `s` (`i32::MIN` for none).
pub open spec fn seq_max(s: Seq<i32>) -> i32
    decreases s.len(),
{
    if s.len() == 0 {
        i32::MIN
    } else {
        let m = seq_max(s.drop_last());
        if s.last() > m {
            s.last()
        } else {
            m
        }
    }
}

/// Sum of a sequence of integers.
pub open spec fn sum_int(s: Seq<int>) -> int
    decreases s.len(),
{
    if s.len() == 0 {
        0
    } else {
        sum_int(s.drop_last()) + s.last()
    }
}

/// `exp(s[i] - max(s))` in Q16.16 for each score.
pub open spec fn exp_weights(s: Seq<i32>) -> Seq<int> {
    Seq::new(s.len(), |i: int| exp_q16(s[i] - seq_max(s)))
}

/// Softmax of the scores in Q16.16: each exponential weight times 1.0,
/// divided by the sum of the weights.
pub open spec fn softmax_q16(s: Seq<i32>) -> Seq<int> {
    Seq::new(s.len(), |i: int| exp_weights(s)[i] * 65536 / sum_int(exp_weights(s)))
}

/// `sum_{s < n} (p[s] * vals[s][vo]) >> 16`.
pub open spec fn weighted_sum(p: Seq<int>, vals: Seq<Seq<i32>>, vo: int, n: nat) -> int
    decreases n,
{
    if n == 0 {
        0
    } else {
        weighted_sum(p, vals, vo, (n - 1) as nat) + shr(p[n - 1] * vals[n - 1][vo], 16)
    }
}

/// Every partial sum of [`weighted_sum`] up to `n` terms fits in `i32`.
pub open spec fn weighted_fits(p: Seq<int>, vals: Seq<Seq<i32>>, vo: int, n: nat) -> bool {
    forall|m: nat| m <= n ==> i32::MIN <= #[trigger] weighted_sum(p, vals, vo, m) <= i32::MAX
}

/// The scores of one query head against the first `seq_len` cached keys:
/// the dot product scaled by `scale` in Q16.16, truncated to `i32`.
pub open spec fn att_scores(
    q: Seq<i32>,
    kc: Seq<Seq<i32>>,
    qo: int,
    ko: int,
    hd: nat,
    seq_len: nat,
    scale: int,
) -> Seq<i32> {
    Seq::new(seq_len, |s: int| shr(dot_q16(q, qo, kc[s], ko, hd) * scale, 16) as i32)
}

/// The heads [`attention`] computes without overflow.
pub open spec fn att_head_ok(
    q: Seq<i32>,
    kc: Seq<Seq<i32>>,
    vc: Seq<Seq<i32>>,
    qo: int,
    ko: int,
    hd: nat,
    seq_len: nat,
    scale: int,
) -> bool {
    let sc = att_scores(q, kc, qo, ko, hd, seq_len, scale);
    &&& forall|s: int| 0 <= s < seq_len ==> #[trigger] dot_fits(q, qo, kc[s], ko, hd)
    &&& forall|s: int|
        0 <= s < seq_len ==> i64::MIN <= #[trigger] dot_q16(q, qo, kc[s], ko, hd) * scale <= i64::MAX
    &&& forall|s: int| 0 <= s < seq_len ==> i32::MIN <= #[trigger] sc[s] - seq_max(sc)
    &&& sum_int(exp_weights(sc)) <= i64::MAX
    &&& forall|i: int| 0 <= i < hd ==> #[trigger] weighted_fits(softmax_q16(sc), vc, ko + i, seq_len)
}

/// The contents of each row.
pub open spec fn rows_view(rows: Seq<Vec<i32>>) -> Seq<Seq<i32>> {
    rows.map_values(|r: Vec<i32>| r@)
}

/// The number of whole tokens in a query of `qlen` values.
pub open spec fn att_tokens(qlen: int, num_heads: int, head_dim: int) -> int {
    qlen / (num_heads * head_dim)
}

/// The output of head `h` of token `t`, position `i` within the head.
pub open spec fn att_out(
    q: Seq<i32>,
    kc: Seq<Seq<i32>>,
    vc: Seq<Seq<i32>>,
    cache_len: int,
    num_heads: int,
    head_dim: int,
    t: int,
    h: int,
    i: int,
) -> int {
    let hid = num_heads * head_dim;
    let seq_len = (cache_len + t + 1) as nat;
    let scale = rsqrt_q16((head_dim as u32) as nat) as int;
    let sc = att_scores(q, kc, t * hid + h * head_dim, h * head_dim, head_dim as nat, seq_len, scale);
    weighted_sum(softmax_q16(sc), vc, h * head_dim + i, seq_len)
}

proof fn lemma_seq_max(s: Seq<i32>)
    requires
        s.len() > 0,
    ensures
        forall|i: int| 0 <= i < s.len() ==> #[trigger] s[i] <= seq_max(s),
        exists|i: int| 0 <= i < s.len() && #[trigger] s[i] == seq_max(s),
    decreases s.len(),
{
    if s.len() > 1 {
        lemma_seq_max(s.drop_last());
        let k = choose|i: int| 0 <= i < s.drop_last().len() && #[trigger] s.drop_last()[i] == seq_max(s.drop_last());
        assert(s[k] == s.drop_last()[k]);
        assert forall|i: int| 0 <= i < s.len() implies #[trigger] s[i] <= seq_max(s) by {
            if i < s.len() - 1 {
                assert(s[i] == s.drop_last()[i]);
            }
        }
        if s.last() > seq_max(s.drop_last()) {
            assert(s[s.len() - 1] == seq_max(s));
        } else {
            assert(s[k] == seq_max(s));
        }
    } else {
        assert(s.drop_last().len() == 0);
        assert(seq_max(s.drop_last()) == i32::MIN);
        assert(s.last() == s[0]);
        assert(s[0] == seq_max(s));
    }
}

proof fn lemma_sum_int_nonneg_prefix(s: Seq<int>, m: int)
    requires
        forall|i: int| 0 <= i < s.len() ==> 0 <= #[trigger] s[i],
        0 <= m <= s.len(),
    ensures
        0 <= sum_int(s.take(m)) <= sum_int(s),
        forall|i: int| 0 <= i < m ==> #[trigger] s[i] <= sum_int(s.take(m)),
    decreases s.len(),
{
    if s.len() > 0 {
        let d = s.drop_last();
        assert forall|i: int| 0 <= i < d.len() implies 0 <= #[trigger] d[i] by {
            assert(d[i] == s[i]);
        }
        if m < s.len() {
            assert(d.take(m) =~= s.take(m));
            lemma_sum_int_nonneg_prefix(d, m);
            assert forall|i: int| 0 <= i < m implies #[trigger] s[i] <= sum_int(s.take(m)) by {
                assert(s[i] == d[i]);
            }
        } else {
            assert(s.take(m) =~= s);
            lemma_sum_int_nonneg_prefix(d, m - 1);
            assert(d.take(m - 1) =~= d);
            assert forall|i: int| 0 <= i < m implies #[trigger] s[i] <= sum_int(s.take(m)) by {
                if i < m - 1 {
                    assert(s[i] == d[i]);
                }
            }
        }
    } else {
        assert(s.take(m) =~= s);
    }
}

/// `sum_{i < n} (a[ao + i] * b[bo + i]) >> 16`, accumulated in `i64`.
fn dot_head(a: &[i32], ao: usize, b: &[i32], bo: usize, n: usize) -> (r: i64)
    requires
        ao + n <= a.len(),
        bo + n <= b.len(),
        dot_fits(a@, ao as int, b@, bo as int, n as nat),
    ensures
        r == dot_q16(a@, ao as int, b@, bo as int, n as nat),
{
    let mut dot: i64 = 0;
    let mut i: usize = 0;
    while i < n
        invariant
            ao + n <= a.len(),
            bo + n <= b.len(),
            dot_fits(a@, ao as int, b@, bo as int, n as nat),
            i <= n,
            dot == dot_q16(a@, ao as int, b@, bo as int, i as nat),
        decreases n - i,
    {
        let x = a[ao + i] as i64;
        let y = b[bo + i] as i64;
        proof {
            lemma_i32_mul_fits(x as i32, y as i32);
        }
        let xy: i64 = x * y;
        proof {
            lemma_i64_shr16(xy);
            assert(i64::MIN <= dot_q16(a@, ao as int, b@, bo as int, (i + 1) as nat) <= i64::MAX);
        }
        dot = dot + (xy >> 16u64);
        i += 1;
    }
    dot
}

/// Replaces the scores by their softmax in Q16.16.
fn softmax_in_place(scores: &mut Vec<i32>)
    requires
        old(scores)@.len() > 0,
        forall|s: int| 0 <= s < old(scores)@.len() ==> i32::MIN <= #[trigger] old(scores)@[s] - seq_max(old(scores)@),
        sum_int(exp_weights(old(scores)@)) <= i64::MAX,
    ensures
        final(scores)@.len() == old(scores)@.len(),
        forall|s: int| 0 <= s < old(scores)@.len() ==> #[trigger] final(scores)@[s] == softmax_q16(old(scores)@)[s],
        forall|s: int| 0 <= s < old(scores)@.len() ==> 0 <= #[trigger] softmax_q16(old(scores)@)[s] <= 65536,
{
    let ghost sc = scores@;
    let n = scores.len();
    proof {
        lemma_seq_max(sc);
    }
    let mut max_score: i32 = i32::MIN;
    let mut k: usize = 0;
    proof {
        assert(sc.take(0) =~= Seq::<i32>::empty());
    }
    while k < n
        invariant
            n == scores@.len(),
            sc == scores@,
            k <= n,
            max_score == seq_max(sc.take(k as int)),
        decreases n - k,
    {
        proof {
            assert(sc.take(k + 1).drop_last() =~= sc.take(k as int));
            assert(sc.take(k + 1).last() == sc[k as int]);
        }
        let v = scores[k];
        if v > max_score {
            max_score = v;
        }
        k += 1;
    }
    proof {
        assert(sc.take(n as int) =~= sc);
    }
    let ghost ew = exp_weights(sc);
    proof {
        lemma_seq_max(sc);
        assert forall|s: int| 0 <= s < n implies 0 <= #[trigger] ew[s] <= 65536 by {
            lemma_exp_q16_nonpos(sc[s] - seq_max(sc));
        }
        lemma_sum_int_nonneg_prefix(ew, n as int);
        assert(ew.take(0) =~= Seq::<int>::empty());
    }
    let mut sum_exp: i64 = 0;
    let mut j: usize = 0;
    while j < n
        invariant
            n == scores@.len(),
            n == sc.len(),
            max_score == seq_max(sc),
            ew == exp_weights(sc),
            forall|s: int| 0 <= s < n ==> i32::MIN <= #[trigger] sc[s] - seq_max(sc),
            forall|s: int| 0 <= s < n ==> #[trigger] sc[s] <= seq_max(sc),
            forall|s: int| 0 <= s < n ==> 0 <= #[trigger] ew[s] <= 65536,
            sum_int(ew) <= i64::MAX,
            j <= n,
            sum_exp == sum_int(ew.take(j as int)),
            forall|s: int| 0 <= s < j ==> #[trigger] scores@[s] == ew[s],
            forall|s: int| j <= s < n ==> #[trigger] scores@[s] == sc[s],
        decreases n - j,
    {
        let v = scores[j];
        proof {
            assert(sc[j as int] - seq_max(sc) >= i32::MIN);
        }
        let e = exp_approx_q16(v - max_score);
        proof {
            assert(ew.take(j + 1).drop_last() =~= ew.take(j as int));
            assert(ew.take(j + 1).last() == ew[j as int]);
            lemma_sum_int_nonneg_prefix(ew, j + 1);
        }
        scores.set(j, e);
        sum_exp = sum_exp + e as i64;
        j += 1;
    }
    proof {
        assert(ew.take(n as int) =~= ew);
        let m = choose|i: int| 0 <= i < sc.len() && #[trigger] sc[i] == seq_max(sc);
        lemma_exp_q16_nonpos(sc[m] - seq_max(sc));
        lemma_sum_int_nonneg_prefix(ew, n as int);
        assert(ew[m] == 65536);
        assert(sum_exp >= 65536);
    }
    let mut r: usize = 0;
    while r < n
        invariant
            n == scores@.len(),
            n == sc.len(),
            ew == exp_weights(sc),
            sum_exp == sum_int(ew),
            sum_exp >= 65536,
            forall|s: int| 0 <= s < n ==> 0 <= #[trigger] ew[s] <= 65536,
            forall|s: int| 0 <= s < n ==> #[trigger] ew[s] <= sum_int(ew),
            r <= n,
            forall|s: int| 0 <= s < r ==> #[trigger] scores@[s] == softmax_q16(sc)[s],
            forall|s: int| r <= s < n ==> #[trigger] scores@[s] == ew[s],
        decreases n - r,
    {
        let e = scores[r] as i64;
        proof {
            assert(0 <= (e * 65536) / (sum_exp as int) <= 65536) by (nonlinear_arith)
                requires 0 <= e <= sum_exp, sum_exp >= 65536;
        }
        let pr: i64 = (e * 65536) / sum_exp;
        scores.set(r, pr as i32);
        r += 1;
    }
    proof {
        assert forall|s: int| 0 <= s < n implies 0 <= #[trigger] softmax_q16(sc)[s] <= 65536 by {
            let e = ew[s];
            let z = sum_int(ew);
            assert(0 <= e * 65536 / z <= 65536) by (nonlinear_arith)
                requires 0 <= e <= z, z >= 65536;
        }
    }
}

/// Multi-head attention of each query token over the cached keys and values,
/// causally: token `t` of `q` sees the first `cache_len + t + 1` cache entries.
/// Scores are dot products (Q16.16) scaled by `1 / sqrt(head_dim)`, turned
/// into weights by an integer softmax, and the output of each head is the
/// weighted sum of the values, written to `out`.
pub fn attention(
    q: &[i32],
    k_cache: &[Vec<i32>],
    v_cache: &[Vec<i32>],
    cache_len: usize,
    num_heads: usize,
    head_dim: usize,
    out: &mut [i32],
)
    requires
        0 < num_heads * head_dim <= usize::MAX,
        old(out)@.len() >= att_tokens(q@.len() as int, num_heads as int, head_dim as int) * (num_heads * head_dim),
        att_tokens(q@.len() as int, num_heads as int, head_dim as int) > 0 ==> cache_len + att_tokens(q@.len() as int, num_heads as int, head_dim as int)
            <= k_cache@.len(),
        att_tokens(q@.len() as int, num_heads as int, head_dim as int) > 0 ==> cache_len + att_tokens(q@.len() as int, num_heads as int, head_dim as int)
            <= v_cache@.len(),
        forall|s: int| 0 <= s < k_cache@.len() ==> (#[trigger] k_cache@[s])@.len() >= num_heads * head_dim,
        forall|s: int| 0 <= s < v_cache@.len() ==> (#[trigger] v_cache@[s])@.len() >= num_heads * head_dim,
        forall|t: int, h: int|
            0 <= t < att_tokens(q@.len() as int, num_heads as int, head_dim as int) && 0 <= h < num_heads ==> #[trigger] att_head_ok(
                q@,
                rows_view(k_cache@),
                rows_view(v_cache@),
                t * (num_heads * head_dim) + h * head_dim,
                h * head_dim,
                head_dim as nat,
                (cache_len + t + 1) as nat,
                rsqrt_q16((head_dim as u32) as nat) as int,
            ),
    ensures
        final(out)@.len() == old(out)@.len(),
        forall|t: int, h: int, i: int|
            0 <= t < att_tokens(q@.len() as int, num_heads as int, head_dim as int) && 0 <= h < num_heads && 0 <= i < head_dim
                ==> #[trigger] final(out)@[t * (num_heads * head_dim) + h * head_dim + i] == att_out(
                q@,
                rows_view(k_cache@),
                rows_view(v_cache@),
                cache_len as int,
                num_heads as int,
                head_dim as int,
                t,
                h,
                i,
            ),
        forall|j: int|
            att_tokens(q@.len() as int, num_heads as int, head_dim as int) * (num_heads * head_dim) <= j < old(out)@.len()
                ==> #[trigger] final(out)@[j] == old(out)@[j],
{
    let hidden_dim = num_heads * head_dim;
    let qlen = q.len();
    let olen = out.len();
    let klen = k_cache.len();
    let vlen = v_cache.len();
    let num_tokens = qlen / hidden_dim;
    let scale = rsqrt_approx_i32(head_dim as u32);
    let ghost kc = rows_view(k_cache@);
    let ghost vc = rows_view(v_cache@);
    let ghost hid = hidden_dim as int;
    let ghost nh = num_heads as int;
    let ghost hd = head_dim as int;
    proof {
        lemma_rsqrt_q16_bound((head_dim as u32) as nat);
    }
    let mut t: usize = 0;
    while t < num_tokens
        invariant
            hidden_dim == num_heads * head_dim,
            hid == hidden_dim,
            nh == num_heads,
            hd == head_dim,
            hidden_dim > 0,
            qlen == q@.len(),
            olen == out@.len(),
            klen == k_cache@.len(),
            vlen == v_cache@.len(),
            num_tokens == qlen / hidden_dim,
            scale as int == rsqrt_q16((head_dim as u32) as nat),
            scale <= 65536,
            kc == rows_view(k_cache@),
            vc == rows_view(v_cache@),
            olen == old(out)@.len(),
            olen >= num_tokens * hidden_dim,
            num_tokens > 0 ==> cache_len + num_tokens <= klen,
            num_tokens > 0 ==> cache_len + num_tokens <= vlen,
            forall|s: int| 0 <= s < k_cache@.len() ==> (#[trigger] k_cache@[s])@.len() >= hidden_dim,
            forall|s: int| 0 <= s < v_cache@.len() ==> (#[trigger] v_cache@[s])@.len() >= hidden_dim,
            forall|t2: int, h: int|
                0 <= t2 < num_tokens && 0 <= h < num_heads ==> #[trigger] att_head_ok(
                    q@,
                    kc,
                    vc,
                    t2 * hid + h * hd,
                    h * hd,
                    head_dim as nat,
                    (cache_len + t2 + 1) as nat,
                    scale as int,
                ),
            t <= num_tokens,
            forall|t2: int, h: int, i: int|
                0 <= t2 < t && 0 <= h < num_heads && 0 <= i < head_dim ==> #[trigger] out@[t2 * hid + h * hd
                    + i] == att_out(q@, kc, vc, cache_len as int, nh, hd, t2, h, i),
            forall|j: int| t * hid <= j < olen ==> #[trigger] out@[j] == old(out)@[j],
        decreases num_tokens - t,
    {
        proof {
            lemma_row_fits(qlen as int, t as int, hid);
            assert(t * hid + hid <= num_tokens * hid) by (nonlinear_arith)
                requires t < num_tokens, hid > 0;
        }
        let tok = t * hidden_dim;
        let seq_len = cache_len + t + 1;
        let ghost before_t = out@;
        proof {
            assert forall|h2: int| 0 <= h2 < num_heads implies #[trigger] att_head_ok(
                q@,
                kc,
                vc,
                tok + h2 * hd,
                h2 * hd,
                head_dim as nat,
                seq_len as nat,
                scale as int,
            ) by {
                assert(att_head_ok(
                    q@,
                    kc,
                    vc,
                    t * hid + h2 * hd,
                    h2 * hd,
                    head_dim as nat,
                    (cache_len + t + 1) as nat,
                    scale as int,
                ));
            }
        }
        let mut h: usize = 0;
        while h < num_heads
            invariant
                hidden_dim == num_heads * head_dim,
                hid == hidden_dim,
                nh == num_heads,
                hd == head_dim,
                hidden_dim > 0,
                qlen == q@.len(),
                olen == out@.len(),
                t < num_tokens,
                tok == t * hid,
                tok + hidden_dim <= qlen,
                tok + hidden_dim <= olen,
                seq_len == cache_len + t + 1,
                seq_len <= k_cache@.len(),
                seq_len <= v_cache@.len(),
                scale as int == rsqrt_q16((head_dim as u32) as nat),
                scale <= 65536,
                kc == rows_view(k_cache@),
                vc == rows_view(v_cache@),
                forall|s: int| 0 <= s < k_cache@.len() ==> (#[trigger] k_cache@[s])@.len() >= hidden_dim,
                forall|s: int| 0 <= s < v_cache@.len() ==> (#[trigger] v_cache@[s])@.len() >= hidden_dim,
                forall|h2: int|
                    0 <= h2 < num_heads ==> #[trigger] att_head_ok(
                        q@,
                        kc,
                        vc,
                        tok + h2 * hd,
                        h2 * hd,
                        head_dim as nat,
                        seq_len as nat,
                        scale as int,
                    ),
                h <= num_heads,
                forall|h2: int, i: int|
                    0 <= h2 < h && 0 <= i < head_dim ==> #[trigger] out@[tok + h2 * hd + i] == att_out(
                        q@,
                        kc,
                        vc,
                        cache_len as int,
                        nh,
                        hd,
                        t as int,
                        h2,
                        i,
                    ),
                forall|j: int| 0 <= j < olen && (j < tok || j >= tok + h * hd) ==> #[trigger] out@[j] == before_t[j],
            decreases num_heads - h,
        {
            proof {
                assert(h * hd + hd <= hid) by (nonlinear_arith)
                    requires 0 <= h < nh, hid == nh * hd, hd >= 0;
                assert(0 <= h * hd) by (nonlinear_arith)
                    requires 0 <= h, 0 <= hd;
            }
            let ho = h * head_dim;
            let qo = tok + ho;
            let ghost sc_spec = att_scores(q@, kc, qo as int, ho as int, head_dim as nat, seq_len as nat, scale as int);
            assert(att_head_ok(q@, kc, vc, tok + h * hd, h * hd, head_dim as nat, seq_len as nat, scale as int));
            let mut scores: Vec<i32> = Vec::new();
            let mut s: usize = 0;
            while s < seq_len
                invariant
                    qo + head_dim <= qlen,
                    qlen == q@.len(),
                    ho + head_dim <= hidden_dim,
                    seq_len <= k_cache@.len(),
                    kc == rows_view(k_cache@),
                    forall|s2: int| 0 <= s2 < k_cache@.len() ==> (#[trigger] k_cache@[s2])@.len() >= hidden_dim,
                    att_head_ok(q@, kc, vc, qo as int, ho as int, head_dim as nat, seq_len as nat, scale as int),
                    sc_spec == att_scores(q@, kc, qo as int, ho as int, head_dim as nat, seq_len as nat, scale as int),
                    0 <= scale <= 65536,
                    s <= seq_len,
                    scores@.len() == s,
                    forall|s2: int| 0 <= s2 < s ==> #[trigger] scores@[s2] == sc_spec[s2],
                decreases seq_len - s,
            {
                let krow: &Vec<i32> = &k_cache[s];
                proof {
                    assert(kc[s as int] == krow@);
                    assert(dot_fits(q@, qo as int, kc[s as int], ho as int, head_dim as nat));
                }
                let dot = dot_head(q, qo, krow.as_slice(), ho, head_dim);
                proof {
                    assert(i64::MIN <= dot_q16(q@, qo as int, kc[s as int], ho as int, head_dim as nat) * scale <= i64::MAX);
                }
                let ds: i64 = dot * scale as i64;
                proof {
                    lemma_i64_shr16(ds);
                }
                scores.push((ds >> 16u64) as i32);
                s += 1;
            }
            proof {
                assert(scores@ =~= sc_spec);
            }
            softmax_in_place(&mut scores);
            let ghost p = softmax_q16(sc_spec);
            let ghost before_h = out@;
            let mut i: usize = 0;
            while i < head_dim
                invariant
                    olen == out@.len(),
                    qo + head_dim <= olen,
                    ho + head_dim <= hidden_dim,
                    seq_len <= v_cache@.len(),
                    vc == rows_view(v_cache@),
                    forall|s2: int| 0 <= s2 < v_cache@.len() ==> (#[trigger] v_cache@[s2])@.len() >= hidden_dim,
                    att_head_ok(q@, kc, vc, qo as int, ho as int, head_dim as nat, seq_len as nat, scale as int),
                    sc_spec == att_scores(q@, kc, qo as int, ho as int, head_dim as nat, seq_len as nat, scale as int),
                    p == softmax_q16(sc_spec),
                    scores@.len() == seq_len,
                    forall|s2: int| 0 <= s2 < seq_len ==> #[trigger] scores@[s2] == p[s2],
                    forall|s2: int| 0 <= s2 < seq_len ==> 0 <= #[trigger] p[s2] <= 65536,
                    i <= head_dim,
                    forall|i2: int| 0 <= i2 < i ==> #[trigger] out@[qo + i2] == weighted_sum(p, vc, ho + i2, seq_len as nat),
                    forall|j: int| 0 <= j < olen && (j < qo || j >= qo + i) ==> #[trigger] out@[j] == before_h[j],
                decreases head_dim - i,
            {
                assert(weighted_fits(p, vc, ho + i, seq_len as nat));
                let mut acc: i32 = 0;
                let mut s: usize = 0;
                while s < seq_len
                    invariant
                        ho + head_dim <= hidden_dim,
                        i < head_dim,
                        seq_len <= v_cache@.len(),
                        vc == rows_view(v_cache@),
                        forall|s2: int| 0 <= s2 < v_cache@.len() ==> (#[trigger] v_cache@[s2])@.len() >= hidden_dim,
                        scores@.len() == seq_len,
                        forall|s2: int| 0 <= s2 < seq_len ==> #[trigger] scores@[s2] == p[s2],
                        forall|s2: int| 0 <= s2 < seq_len ==> 0 <= #[trigger] p[s2] <= 65536,
                        weighted_fits(p, vc, ho + i, seq_len as nat),
                        s <= seq_len,
                        acc == weighted_sum(p, vc, ho + i, s as nat),
                    decreases seq_len - s,
                {
                    let pr = scores[s] as i64;
                    let vrow: &Vec<i32> = &v_cache[s];
                    proof {
                        assert(vc[s as int] == vrow@);
                    }
                    let vv = vrow[ho + i] as i64;
                    proof {
                        assert(-0x8000_0000_0000 <= pr * vv <= 0x7FFF_FFFF_0000) by (nonlinear_arith)
                            requires 0 <= pr <= 65536, -0x8000_0000 <= vv < 0x8000_0000;
                    }
                    let prod: i64 = pr * vv;
                    proof {
                        lemma_i64_shr16(prod);
                        assert(i32::MIN <= weighted_sum(p, vc, ho + i, (s + 1) as nat) <= i32::MAX);
                    }
                    acc = acc + (prod >> 16u64) as i32;
                    s += 1;
                }
                out[qo + i] = acc;
                i += 1;
            }
            proof {
                assert forall|h2: int, i2: int|
                    0 <= h2 < h + 1 && 0 <= i2 < head_dim implies #[trigger] out@[tok + h2 * hd + i2] == att_out(
                    q@,
                    kc,
                    vc,
                    cache_len as int,
                    nh,
                    hd,
                    t as int,
                    h2,
                    i2,
                ) by {
                    if h2 == h {
                        assert(tok + h2 * hd + i2 == qo + i2);
                    } else {
                        assert(h2 * hd + i2 < h * hd) by (nonlinear_arith)
                            requires 0 <= h2 < h, 0 <= i2 < hd;
                        assert(0 <= h2 * hd) by (nonlinear_arith)
                            requires 0 <= h2, 0 <= hd;
                        assert(out@[tok + h2 * hd + i2] == before_h[tok + h2 * hd + i2]);
                    }
                }
                assert((h + 1) * hd == h * hd + hd) by (nonlinear_arith);
            }
            h += 1;
        }
        proof {
            assert forall|t2: int, h2: int, i: int|
                0 <= t2 < t + 1 && 0 <= h2 < num_heads && 0 <= i < head_dim implies #[trigger] out@[t2 * hid
                    + h2 * hd + i] == att_out(q@, kc, vc, cache_len as int, nh, hd, t2, h2, i) by {
                assert(0 <= h2 * hd + i < hid) by (nonlinear_arith)
                    requires 0 <= h2 < nh, 0 <= i < hd, hid == nh * hd;
                if t2 < t {
                    assert(t2 * hid + hid <= t * hid) by (nonlinear_arith)
                        requires t2 < t, hid > 0;
                    assert(0 <= t2 * hid) by (nonlinear_arith)
                        requires 0 <= t2, hid > 0;
                    assert(out@[t2 * hid + h2 * hd + i] == before_t[t2 * hid + h2 * hd + i]);
                }
            }
            assert((t + 1) * hid == t * hid + hid) by (nonlinear_arith);
            assert(h * hd == hid);
        }
        t += 1;
    }
}

// ---------------------------------------------------------------------------
// Int8 rows with a per-row scale
// ---------------------------------------------------------------------------

/// The largest absolute value in `p` (0 for none).
pub open spec fn max_abs(p: Seq<int>) -> int
    decreases p.len(),
{
    if p.len() == 0 {
        0
    } else {
        let m = max_abs(p.drop_last());
        if abs(p.last()) > m {
            abs(p.last())
        } else {
            m
        }
    }
}

/// The output scale of a row whose largest product is `max_abs`: the
/// largest output `max_abs * combined` (in Q16) divided by 127, truncated to
/// `i32`; 1 when that largest output is 0.
pub open spec fn int8_out_scale(max_abs: int, combined: int) -> i32 {
    let max_out = shr(max_abs * combined, 16);
    if max_out == 0 {
        1
    } else {
        tdiv(max_out, 127) as i32
    }
}

/// The factor, in Q31, that maps a product to its int8 value.
pub open spec fn int8_multiplier(combined: int, out_scale: int) -> int {
    if out_scale == 0 {
        0
    } else {
        tdiv(combined * 65536, out_scale)
    }
}

/// A product quantized to int8: `prod * mult` shifted back by 31 bits,
/// truncated to `i32`, clamped to the `i8` range.
pub open spec fn int8_quant(prod: int, mult: int) -> i8 {
    clamp((shr(prod * mult, 31) as i32) as int, -128, 127) as i8
}

/// The rows of products on which [`quantize_products`] computes without
/// overflow.
pub open spec fn products_ok(p: Seq<int>, combined: int) -> bool {
    &&& forall|i: int| 0 <= i < p.len() ==> -0x4000_0000 <= #[trigger] p[i] <= 0x4000_0000
    &&& forall|i: int|
        0 <= i < p.len() ==> i64::MIN <= #[trigger] p[i] * int8_multiplier(
            combined,
            int8_out_scale(max_abs(p), combined) as int,
        ) <= i64::MAX
}

proof fn lemma_max_abs(p: Seq<int>)
    requires
        forall|i: int| 0 <= i < p.len() ==> -0x4000_0000 <= #[trigger] p[i] <= 0x4000_0000,
    ensures
        0 <= max_abs(p) <= 0x4000_0000,
    decreases p.len(),
{
    if p.len() > 0 {
        assert forall|i: int| 0 <= i < p.drop_last().len() implies -0x4000_0000 <= #[trigger] p.drop_last()[i]
            <= 0x4000_0000 by {
            assert(p.drop_last()[i] == p[i]);
        }
        lemma_max_abs(p.drop_last());
        assert(-0x4000_0000 <= p[p.len() - 1] <= 0x4000_0000);
    }
}

/// Quantizes a row of products to `out_q[base..base + p.len()]` and returns
/// the row's output scale.
fn quantize_products(p: &Vec<i32>, combined: i32, out_q: &mut [i8], base: usize) -> (out_scale: i32)
    requires
        base + p@.len() <= old(out_q)@.len(),
        products_ok(p@.map_values(|v: i32| v as int), combined as int),
    ensures
        out_scale == int8_out_scale(max_abs(p@.map_values(|v: i32| v as int)), combined as int),
        final(out_q)@.len() == old(out_q)@.len(),
        forall|i: int|
            0 <= i < p@.len() ==> #[trigger] final(out_q)@[base + i] == int8_quant(
                p@[i] as int,
                int8_multiplier(combined as int, out_scale as int),
            ),
        forall|j: int|
            0 <= j < old(out_q)@.len() && !(base <= j < base + p@.len()) ==> #[trigger] final(out_q)@[j]
                == old(out_q)@[j],
{
    let ghost pv = p@.map_values(|v: i32| v as int);
    let n = p.len();
    let mut max_abs_int: i32 = 0;
    let mut i: usize = 0;
    proof {
        assert(pv.take(0) =~= Seq::<int>::empty());
    }
    while i < n
        invariant
            n == p@.len(),
            pv == p@.map_values(|v: i32| v as int),
            products_ok(pv, combined as int),
            i <= n,
            max_abs_int == max_abs(pv.take(i as int)),
            0 <= max_abs_int <= 0x4000_0000,
        decreases n - i,
    {
        let v = p[i];
        proof {
            assert(pv[i as int] == v as int);
            assert(pv.take(i + 1).drop_last() =~= pv.take(i as int));
        }
        let a = if v < 0 { -v } else { v };
        if a > max_abs_int {
            max_abs_int = a;
        }
        i += 1;
    }
    proof {
        assert(pv.take(n as int) =~= pv);
        assert(-0x4000_0000_0000_0000 <= max_abs_int as i64 * combined as i64 <= 0x4000_0000_0000_0000) by (nonlinear_arith)
            requires 0 <= max_abs_int <= 0x4000_0000, -0x8000_0000 <= combined < 0x8000_0000;
    }
    let mo: i64 = max_abs_int as i64 * combined as i64;
    proof {
        lemma_i64_shr16(mo);
    }
    let max_out: i64 = mo >> 16u64;
    let out_scale: i32 = if max_out == 0 { 1 } else { (max_out / 127) as i32 };
    let ci: i64 = combined as i64;
    proof {
        assert(ci << 16u64 == ci * 65536) by (bit_vector)
            requires -0x8000_0000 <= ci < 0x8000_0000;
    }
    let multiplier: i64 = if out_scale == 0 {
        0
    } else {
        let num: i64 = ci << 16u64;
        proof {
            if out_scale > 0 {
                if num >= 0 {
                    assert((num as int) / (out_scale as int) <= num) by (nonlinear_arith)
                        requires num >= 0, out_scale >= 1;
                } else {
                    assert((-(num as int)) / (out_scale as int) <= -num) by (nonlinear_arith)
                        requires num < 0, out_scale >= 1;
                }
            } else {
                if num >= 0 {
                    assert((num as int) / (-(out_scale as int)) <= num) by (nonlinear_arith)
                        requires num >= 0, out_scale <= -1;
                } else {
                    assert((-(num as int)) / (-(out_scale as int)) <= -num) by (nonlinear_arith)
                        requires num < 0, out_scale <= -1;
                }
            }
        }
        let os: i64 = out_scale as i64;
        let d: i64 = if os > 0 { num / os } else { -(num / (-os)) };
        assert(d == tdiv(num as int, out_scale as int));
        d
    };
    assert(multiplier == int8_multiplier(combined as int, out_scale as int));
    let ol = out_q.len();
    let mut k: usize = 0;
    while k < n
        invariant
            n == p@.len(),
            pv == p@.map_values(|v: i32| v as int),
            products_ok(pv, combined as int),
            out_scale == int8_out_scale(max_abs(pv), combined as int),
            multiplier == int8_multiplier(combined as int, out_scale as int),
            base + n <= ol,
            ol == out_q@.len(),
            out_q@.len() == old(out_q)@.len(),
            k <= n,
            forall|i: int|
                0 <= i < k ==> #[trigger] out_q@[base + i] == int8_quant(p@[i] as int, multiplier as int),
            forall|j: int|
                0 <= j < old(out_q)@.len() && !(base <= j < base + k) ==> #[trigger] out_q@[j]
                    == old(out_q)@[j],
        decreases n - k,
    {
        let v = p[k];
        proof {
            assert(pv[k as int] == v as int);
            assert(i64::MIN <= pv[k as int] * multiplier <= i64::MAX);
        }
        let prod: i64 = v as i64 * multiplier;
        proof {
            lemma_i64_shr31(prod);
        }
        let quantized: i32 = (prod >> 31u64) as i32;
        let clamped = clamp_i32(quantized, -128, 127);
        out_q[base + k] = clamped as i8;
        k += 1;
    }
    out_scale
}

proof fn lemma_multiplier_bound(c: int, s: int)
    requires
        -0x8000_0000 <= c <= 0x8000_0000,
    ensures
        -0x8000_0000_0000 <= int8_multiplier(c, s) <= 0x8000_0000_0000,
{
    if s != 0 {
        let num = c * 65536;
        if s > 0 {
            if num >= 0 {
                assert(num / s <= num) by (nonlinear_arith)
                    requires num >= 0, s >= 1;
            } else {
                assert((-num) / s <= -num) by (nonlinear_arith)
                    requires num < 0, s >= 1;
            }
        } else {
            if num >= 0 {
                assert(num / (-s) <= num) by (nonlinear_arith)
                    requires num >= 0, s <= -1;
            } else {
                assert((-num) / (-s) <= -num) by (nonlinear_arith)
                    requires num < 0, s <= -1;
            }
        }
    }
}

/// Sum of the squares of an int8 row.
pub open spec fn sq_sum_i8(c: Seq<i8>) -> int
    decreases c.len(),
{
    if c.len() == 0 {
        0
    } else {
        sq_sum_i8(c.drop_last()) + c.last() * c.last()
    }
}

/// The mean square of an int8 row as [`rmsnorm_int8`] computes it.
pub open spec fn rms_int8_mean(c: Seq<i8>, n: int) -> int {
    tdiv(sq_sum_i8(c), n)
}

/// The rows [`rmsnorm_int8`] accepts: the sum of squares fits in `i32` and
/// the mean square plus `eps` too.
pub open spec fn rmsnorm_int8_row_ok(c: Seq<i8>, n: int, eps: i32) -> bool {
    &&& sq_sum_i8(c) <= i32::MAX
    &&& i32::MIN <= rms_int8_mean(c, n) + eps <= i32::MAX
}

/// The scale that maps a row's products to outputs: `1 / rms` times the
/// weight scale, in Q16.
pub open spec fn rms_int8_combined(c: Seq<i8>, n: int, weight_scale: i32, eps: i32) -> int {
    let inv = rsqrt_q16((((rms_int8_mean(c, n) + eps) as i32) as u32) as nat);
    shr(inv * weight_scale, 16)
}

/// The products of a row with the weights.
pub open spec fn rms_int8_products(c: Seq<i8>, w: Seq<i8>) -> Seq<int> {
    Seq::new(c.len(), |i: int| c[i] * w[i])
}

/// The output scale of a row of [`rmsnorm_int8`].
pub open spec fn rms_int8_scale(c: Seq<i8>, w: Seq<i8>, n: int, weight_scale: i32, eps: i32) -> i32 {
    int8_out_scale(max_abs(rms_int8_products(c, w)), rms_int8_combined(c, n, weight_scale, eps))
}

/// Output `i` of a row of [`rmsnorm_int8`].
pub open spec fn rms_int8_value(
    c: Seq<i8>,
    w: Seq<i8>,
    n: int,
    weight_scale: i32,
    eps: i32,
    i: int,
) -> i8 {
    int8_quant(
        c[i] * w[i],
        int8_multiplier(
            rms_int8_combined(c, n, weight_scale, eps),
            rms_int8_scale(c, w, n, weight_scale, eps) as int,
        ),
    )
}

proof fn lemma_sq_sum_i8_prefix(c: Seq<i8>, m: int)
    requires
        0 <= m <= c.len(),
    ensures
        0 <= sq_sum_i8(c.take(m)) <= sq_sum_i8(c),
    decreases c.len(),
{
    if m < c.len() {
        assert(c.drop_last().take(m) =~= c.take(m));
        lemma_sq_sum_i8_prefix(c.drop_last(), m);
        assert(c.last() * c.last() >= 0) by (nonlinear_arith);
    } else {
        assert(c.take(m) =~= c);
        if c.len() > 0 {
            lemma_sq_sum_i8_prefix(c.drop_last(), c.len() - 1);
            assert(c.drop_last().take(c.len() - 1) =~= c.drop_last());
            assert(c.last() * c.last() >= 0) by (nonlinear_arith);
        }
    }
}

/// Int8 RMS normalization: each row of `q` (as long as `weight_i8`) is scaled
/// by its `1 / rms`, multiplied by the weights and requantized to int8 with a
/// per-row scale, written to `out_scales`. Rows are taken while both `q` and
/// `out_q` have one.
pub fn rmsnorm_int8(
    q: &[i8],
    weight_i8: &[i8],
    weight_scale: i32,
    eps: i32,
    out_q: &mut [i8],
    out_scales: &mut [i32],
)
    requires
        0 < weight_i8@.len() <= i32::MAX,
        crate::arith::min(q@.len() as int, old(out_q)@.len() as int) % (weight_i8@.len() as int) == 0,
        old(out_scales)@.len() >= crate::arith::min(q@.len() as int, old(out_q)@.len() as int) / (
        weight_i8@.len() as int),
        forall|t: int|
            0 <= t < crate::arith::min(q@.len() as int, old(out_q)@.len() as int) / (
            weight_i8@.len() as int) ==> rmsnorm_int8_row_ok(
                #[trigger] row_of(q@, weight_i8@.len() as int, t),
                weight_i8@.len() as int,
                eps,
            ),
    ensures
        final(out_q)@.len() == old(out_q)@.len(),
        final(out_scales)@.len() == old(out_scales)@.len(),
        forall|t: int|
            0 <= t < crate::arith::min(q@.len() as int, old(out_q)@.len() as int) / (
            weight_i8@.len() as int) ==> #[trigger] final(out_scales)@[t] == rms_int8_scale(
                row_of(q@, weight_i8@.len() as int, t),
                weight_i8@,
                weight_i8@.len() as int,
                weight_scale,
                eps,
            ),
        forall|j: int|
            0 <= j < crate::arith::min(q@.len() as int, old(out_q)@.len() as int) ==> #[trigger] final(out_q)@[j]
                == rms_int8_value(
                row_of(q@, weight_i8@.len() as int, j / (weight_i8@.len() as int)),
                weight_i8@,
                weight_i8@.len() as int,
                weight_scale,
                eps,
                j % (weight_i8@.len() as int),
            ),
        forall|j: int|
            crate::arith::min(q@.len() as int, old(out_q)@.len() as int) <= j < old(out_q)@.len()
                ==> #[trigger] final(out_q)@[j] == old(out_q)@[j],
        forall|t: int|
            crate::arith::min(q@.len() as int, old(out_q)@.len() as int) / (weight_i8@.len() as int)
                <= t < old(out_scales)@.len() ==> #[trigger] final(out_scales)@[t]
                == old(out_scales)@[t],
{
    let hd = weight_i8.len();
    let m = if q.len() < out_q.len() { q.len() } else { out_q.len() };
    let rows = m / hd;
    let ghost n = hd as int;
    let ghost w = weight_i8@;
    let mut t: usize = 0;
    let mut base: usize = 0;
    while t < rows
        invariant
            hd == w.len(),
            w == weight_i8@,
            n == hd,
            0 < hd <= i32::MAX,
            m == crate::arith::min(q@.len() as int, old(out_q)@.len() as int),
            m <= q@.len(),
            m <= out_q@.len(),
            m % hd == 0,
            rows == m / hd,
            out_scales@.len() >= rows,
            out_q@.len() == old(out_q)@.len(),
            out_scales@.len() == old(out_scales)@.len(),
            t <= rows,
            base == t * hd,
            forall|r: int| 0 <= r < rows ==> rmsnorm_int8_row_ok(#[trigger] row_of(q@, n, r), n, eps),
            forall|r: int|
                0 <= r < t ==> #[trigger] out_scales@[r] == rms_int8_scale(row_of(q@, n, r), w, n, weight_scale, eps),
            forall|r: int| t <= r < out_scales@.len() ==> #[trigger] out_scales@[r] == old(out_scales)@[r],
            forall|j: int|
                0 <= j < base ==> #[trigger] out_q@[j] == rms_int8_value(
                    row_of(q@, n, j / n),
                    w,
                    n,
                    weight_scale,
                    eps,
                    j % n,
                ),
            forall|j: int| base <= j < out_q@.len() ==> #[trigger] out_q@[j] == old(out_q)@[j],
        decreases rows - t,
    {
        proof {
            lemma_row_fits(m as int, t as int, n);
        }
        let ghost row = row_of(q@, n, t as int);
        assert(rmsnorm_int8_row_ok(row, n, eps));
        let mut sum_sq: i32 = 0;
        let mut k: usize = 0;
        proof {
            assert(row.take(0) =~= Seq::<i8>::empty());
        }
        while k < hd
            invariant
                hd == n,
                base + hd <= m,
                m <= q@.len(),
                row == q@.subrange(base as int, base + hd),
                sq_sum_i8(row) <= i32::MAX,
                k <= hd,
                sum_sq == sq_sum_i8(row.take(k as int)),
            decreases hd - k,
        {
            let v = q[base + k] as i32;
            proof {
                assert(row.take(k + 1).drop_last() =~= row.take(k as int));
                assert(row.take(k + 1).last() == row[k as int]);
                lemma_sq_sum_i8_prefix(row, k + 1);
                assert(0 <= v * v <= 16384) by (nonlinear_arith)
                    requires -128 <= v < 128;
            }
            sum_sq = sum_sq + v * v;
            k += 1;
        }
        proof {
            assert(row.take(n) =~= row);
            lemma_sq_sum_i8_prefix(row, n);
        }
        let mean_sq: i32 = sum_sq / hd as i32;
        let inv_rms = rsqrt_approx_i32((mean_sq + eps) as u32);
        proof {
            lemma_rsqrt_q16_bound((((mean_sq + eps) as i32) as u32) as nat);
            assert(-0x8000_0000_0000 <= inv_rms as i64 * weight_scale as i64 <= 0x7FFF_FFFF_0000) by (nonlinear_arith)
                requires 0 <= inv_rms <= 65536, -0x8000_0000 <= weight_scale < 0x8000_0000;
        }
        let cs: i64 = inv_rms as i64 * weight_scale as i64;
        proof {
            lemma_i64_shr16(cs);
        }
        let combined: i32 = (cs >> 16u64) as i32;
        assert(combined as int == rms_int8_combined(row, n, weight_scale, eps));
        let mut prods: Vec<i32> = Vec::new();
        let mut i: usize = 0;
        while i < hd
            invariant
                hd == n,
                hd == w.len(),
                w == weight_i8@,
                base + hd <= m,
                m <= q@.len(),
                row == q@.subrange(base as int, base + hd),
                i <= hd,
                prods@.len() == i,
                forall|k2: int| 0 <= k2 < i ==> #[trigger] prods@[k2] as int == row[k2] * w[k2],
            decreases hd - i,
        {
            let a = q[base + i] as i32;
            let b = weight_i8[i] as i32;
            proof {
                assert(-16384 <= a * b <= 16384) by (nonlinear_arith)
                    requires -128 <= a < 128, -128 <= b < 128;
            }
            let p: i32 = a * b;
            prods.push(p);
            i += 1;
        }
        let ghost pv = prods@.map_values(|v: i32| v as int);
        proof {
            assert(pv =~= rms_int8_products(row, w));
            assert forall|i2: int| 0 <= i2 < pv.len() implies -0x4000_0000 <= #[trigger] pv[i2] <= 0x4000_0000 by {
                assert(-0x4000 <= pv[i2] <= 0x4000) by (nonlinear_arith)
                    requires pv[i2] == row[i2] * w[i2], -128 <= row[i2] < 128, -128 <= w[i2] < 128;
            }
            lemma_max_abs(pv);
            lemma_multiplier_bound(combined as int, int8_out_scale(max_abs(pv), combined as int) as int);
            let mult = int8_multiplier(combined as int, int8_out_scale(max_abs(pv), combined as int) as int);
            assert forall|i2: int| 0 <= i2 < pv.len() implies i64::MIN <= #[trigger] pv[i2] * mult <= i64::MAX by {
                assert(-0x4000 <= pv[i2] <= 0x4000) by (nonlinear_arith)
                    requires pv[i2] == row[i2] * w[i2], -128 <= row[i2] < 128, -128 <= w[i2] < 128;
                assert(-0x2000_0000_0000_0000 <= pv[i2] * mult <= 0x2000_0000_0000_0000) by (nonlinear_arith)
                    requires -0x4000 <= pv[i2] <= 0x4000, -0x8000_0000_0000 <= mult <= 0x8000_0000_0000;
            }
            assert forall|i2: int| 0 <= i2 < pv.len() implies -0x4000_0000 <= #[trigger] pv[i2] <= 0x4000_0000 by {
                assert(-0x4000 <= pv[i2] <= 0x4000) by (nonlinear_arith)
                    requires pv[i2] == row[i2] * w[i2], -128 <= row[i2] < 128, -128 <= w[i2] < 128;
            }
        }
        let ghost before = out_q@;
        let out_scale = quantize_products(&prods, combined, out_q, base);
        proof {
            assert forall|j: int| 0 <= j < base + hd implies #[trigger] out_q@[j] == rms_int8_value(
                row_of(q@, n, j / n),
                w,
                n,
                weight_scale,
                eps,
                j % n,
            ) by {
                if j >= base {
                    lemma_row_col(j, t as int, n);
                    assert(out_q@[base + (j - base)] == int8_quant(
                        prods@[j - base] as int,
                        int8_multiplier(combined as int, out_scale as int),
                    ));
                } else {
                    assert(out_q@[j] == before[j]);
                }
            }
        }
        out_scales[t] = out_scale;
        proof {
            assert((t + 1) * hd == t * hd + hd) by (nonlinear_arith);
        }
        t += 1;
        base += hd;
    }
    proof {
        assert(base == m) by (nonlinear_arith)
            requires base == t * hd, t == rows, rows == m / hd, m % hd == 0, hd > 0;
    }
}

/// The products of a row of [`swiglu_int8`]: `silu(x * s) >> 8` times the weight.
pub open spec fn swiglu_int8_products(c: Seq<i8>, s: i32, v: Seq<i8>) -> Seq<int> {
    Seq::new(c.len(), |i: int| shr(silu_q16(c[i] * s), 8) * v[i])
}

/// The rows [`swiglu_int8`] accepts with input scale `s`: every `x * s` fits
/// in `i32` and is at least -10.0, and no product overflows when requantized.
pub open spec fn swiglu_int8_row_ok(c: Seq<i8>, s: i32, v: Seq<i8>, v_weight_scale: i32) -> bool {
    &&& forall|i: int| 0 <= i < c.len() ==> -655360 <= #[trigger] c[i] * s <= i32::MAX
    &&& products_ok(swiglu_int8_products(c, s, v), v_weight_scale as int)
}

/// The output scale of a row of [`swiglu_int8`].
pub open spec fn swiglu_int8_scale(c: Seq<i8>, s: i32, v: Seq<i8>, v_weight_scale: i32) -> i32 {
    int8_out_scale(max_abs(swiglu_int8_products(c, s, v)), v_weight_scale as int)
}

/// Output `i` of a row of [`swiglu_int8`].
pub open spec fn swiglu_int8_value(c: Seq<i8>, s: i32, v: Seq<i8>, v_weight_scale: i32, i: int) -> i8 {
    int8_quant(
        swiglu_int8_products(c, s, v)[i],
        int8_multiplier(v_weight_scale as int, swiglu_int8_scale(c, s, v, v_weight_scale) as int),
    )
}

/// Int8 gated SiLU: each row of `q` (as long as `v_weight_i8`) is dequantized
/// with its scale from `in_scales`, passed through SiLU, multiplied by the
/// weights and requantized to int8 with a per-row scale, written to
/// `out_scales`. Rows are taken while both `q` and `out_q` have one.
pub fn swiglu_int8(
    q: &[i8],
    in_scales: &[i32],
    v_weight_i8: &[i8],
    v_weight_scale: i32,
    out_q: &mut [i8],
    out_scales: &mut [i32],
)
    requires
        0 < v_weight_i8@.len(),
        crate::arith::min(q@.len() as int, old(out_q)@.len() as int) % (v_weight_i8@.len() as int) == 0,
        old(out_scales)@.len() >= crate::arith::min(q@.len() as int, old(out_q)@.len() as int) / (
        v_weight_i8@.len() as int),
        in_scales@.len() >= crate::arith::min(q@.len() as int, old(out_q)@.len() as int) / (
        v_weight_i8@.len() as int),
        forall|t: int|
            0 <= t < crate::arith::min(q@.len() as int, old(out_q)@.len() as int) / (
            v_weight_i8@.len() as int) ==> swiglu_int8_row_ok(
                #[trigger] row_of(q@, v_weight_i8@.len() as int, t),
                in_scales@[t],
                v_weight_i8@,
                v_weight_scale,
            ),
    ensures
        final(out_q)@.len() == old(out_q)@.len(),
        final(out_scales)@.len() == old(out_scales)@.len(),
        forall|t: int|
            0 <= t < crate::arith::min(q@.len() as int, old(out_q)@.len() as int) / (
            v_weight_i8@.len() as int) ==> #[trigger] final(out_scales)@[t] == swiglu_int8_scale(
                row_of(q@, v_weight_i8@.len() as int, t),
                in_scales@[t],
                v_weight_i8@,
                v_weight_scale,
            ),
        forall|j: int|
            0 <= j < crate::arith::min(q@.len() as int, old(out_q)@.len() as int) ==> #[trigger] final(out_q)@[j]
                == swiglu_int8_value(
                row_of(q@, v_weight_i8@.len() as int, j / (v_weight_i8@.len() as int)),
                in_scales@[j / (v_weight_i8@.len() as int)],
                v_weight_i8@,
                v_weight_scale,
                j % (v_weight_i8@.len() as int),
            ),
        forall|j: int|
            crate::arith::min(q@.len() as int, old(out_q)@.len() as int) <= j < old(out_q)@.len()
                ==> #[trigger] final(out_q)@[j] == old(out_q)@[j],
        forall|t: int|
            crate::arith::min(q@.len() as int, old(out_q)@.len() as int) / (v_weight_i8@.len() as int)
                <= t < old(out_scales)@.len() ==> #[trigger] final(out_scales)@[t]
                == old(out_scales)@[t],
{
    let hd = v_weight_i8.len();
    let m = if q.len() < out_q.len() { q.len() } else { out_q.len() };
    let rows = m / hd;
    let ghost n = hd as int;
    let ghost w = v_weight_i8@;
    let mut t: usize = 0;
    let mut base: usize = 0;
    while t < rows
        invariant
            hd == w.len(),
            w == v_weight_i8@,
            n == hd,
            0 < hd,
            m == crate::arith::min(q@.len() as int, old(out_q)@.len() as int),
            m <= q@.len(),
            m <= out_q@.len(),
            m % hd == 0,
            rows == m / hd,
            out_scales@.len() >= rows,
            in_scales@.len() >= rows,
            out_q@.len() == old(out_q)@.len(),
            out_scales@.len() == old(out_scales)@.len(),
            t <= rows,
            base == t * hd,
            forall|r: int|
                0 <= r < rows ==> swiglu_int8_row_ok(#[trigger] row_of(q@, n, r), in_scales@[r], w, v_weight_scale),
            forall|r: int|
                0 <= r < t ==> #[trigger] out_scales@[r] == swiglu_int8_scale(
                    row_of(q@, n, r),
                    in_scales@[r],
                    w,
                    v_weight_scale,
                ),
            forall|r: int| t <= r < out_scales@.len() ==> #[trigger] out_scales@[r] == old(out_scales)@[r],
            forall|j: int|
                0 <= j < base ==> #[trigger] out_q@[j] == swiglu_int8_value(
                    row_of(q@, n, j / n),
                    in_scales@[j / n],
                    w,
                    v_weight_scale,
                    j % n,
                ),
            forall|j: int| base <= j < out_q@.len() ==> #[trigger] out_q@[j] == old(out_q)@[j],
        decreases rows - t,
    {
        proof {
            lemma_row_fits(m as int, t as int, n);
        }
        let ghost row = row_of(q@, n, t as int);
        let s = in_scales[t];
        assert(swiglu_int8_row_ok(row, s, w, v_weight_scale));
        let ghost pspec = swiglu_int8_products(row, s, w);
        let mut prods: Vec<i32> = Vec::new();
        let mut i: usize = 0;
        while i < hd
            invariant
                hd == n,
                hd == w.len(),
                w == v_weight_i8@,
                base + hd <= m,
                m <= q@.len(),
                row == q@.subrange(base as int, base + hd),
                swiglu_int8_row_ok(row, s, w, v_weight_scale),
                pspec == swiglu_int8_products(row, s, w),
                i <= hd,
                prods@.len() == i,
                forall|k2: int| 0 <= k2 < i ==> #[trigger] prods@[k2] as int == pspec[k2],
            decreases hd - i,
        {
            let x_val = q[base + i] as i32;
            proof {
                assert(row[i as int] == x_val);
                assert(-655360 <= row[i as int] * s <= i32::MAX);
            }
            let x_fixed: i32 = x_val * s;
            let l = silu(x_fixed);
            proof {
                lemma_silu_q16_range(x_fixed as int);
                lemma_i32_shr8(l);
            }
            let l_val: i32 = l >> 8i32;
            let v_val = v_weight_i8[i] as i32;
            proof {
                assert(-0x80_0000 <= l_val <= 0x80_0000);
                assert(-0x4000_0000 <= l_val * v_val <= 0x4000_0000) by (nonlinear_arith)
                    requires -0x80_0000 <= l_val <= 0x80_0000, -128 <= v_val < 128;
            }
            let p: i32 = l_val * v_val;
            prods.push(p);
            i += 1;
        }
        let ghost pv = prods@.map_values(|v: i32| v as int);
        proof {
            assert(pv =~= pspec);
        }
        let ghost before = out_q@;
        let out_scale = quantize_products(&prods, v_weight_scale, out_q, base);
        proof {
            assert forall|j: int| 0 <= j < base + hd implies #[trigger] out_q@[j] == swiglu_int8_value(
                row_of(q@, n, j / n),
                in_scales@[j / n],
                w,
                v_weight_scale,
                j % n,
            ) by {
                if j >= base {
                    lemma_row_col(j, t as int, n);
                    assert(out_q@[base + (j - base)] == int8_quant(
                        prods@[j - base] as int,
                        int8_multiplier(v_weight_scale as int, out_scale as int),
                    ));
                } else {
                    assert(out_q@[j] == before[j]);
                }
            }
        }
        out_scales[t] = out_scale;
        proof {
            assert((t + 1) * hd == t * hd + hd) by (nonlinear_arith);
        }
        t += 1;
        base += hd;
    }
    proof {
        assert(base == m) by (nonlinear_arith)
            requires base == t * hd, t == rows, rows == m / hd, m % hd == 0, hd > 0;
    }
}

// ---------------------------------------------------------------------------
// Ternary quantization
// ---------------------------------------------------------------------------

/// Whether bit `j` of `w` is set.
pub open spec fn word_bit(w: u64, j: int) -> bool {
    (w >> (j as u64)) & 1u64 == 1u64
}

/// Sum of the absolute values of `x`.
pub open spec fn sum_abs(x: Seq<i8>) -> int
    decreases x.len(),
{
    if x.len() == 0 {
        0
    } else {
        sum_abs(x.drop_last()) + crate::arith::abs(x.last() as int)
    }
}

proof fn lemma_sum_abs_bound(x: Seq<i8>)
    ensures
        0 <= sum_abs(x) <= 128 * x.len(),
    decreases x.len(),
{
    if x.len() > 0 {
        lemma_sum_abs_bound(x.drop_last());
    }
}

/// No bit of 0 is set.
pub(crate) proof fn lemma_word_bit_zero()
    ensures
        forall|m: int| 0 <= m < 64 ==> !#[trigger] word_bit(0u64, m),
{
    assert forall|m: int| 0 <= m < 64 implies !#[trigger] word_bit(0u64, m) by {
        let mm = m as u64;
        assert((0u64 >> mm) & 1u64 == 0u64) by (bit_vector);
    }
}

/// Setting bit `j` sets that bit and keeps the others.
pub(crate) proof fn lemma_word_bit_set(bits: u64, j: u64)
    requires
        j < 64,
    ensures
        forall|m: int| 0 <= m < 64 ==> (#[trigger] word_bit(bits | (1u64 << j), m) <==> (word_bit(bits, m) || m == j)),
{
    assert forall|m: int| 0 <= m < 64 implies (#[trigger] word_bit(bits | (1u64 << j), m) <==> (word_bit(bits, m) || m == j)) by {
        let mm = m as u64;
        assert(((bits | (1u64 << j)) >> mm) & 1u64 == 1u64 <==> (((bits >> mm) & 1u64 == 1u64) || mm == j)) by (bit_vector)
            requires mm < 64, j < 64;
    }
}

/// The bits of a 64-weight word: bit `j` set where `keep(x[base + j])`.
fn sign_bits(x: &[i8], base: usize, positive: bool) -> (r: u64)
    requires
        base + 64 <= x.len(),
    ensures
        forall|j: int|
            0 <= j < 64 ==> (#[trigger] word_bit(r, j) <==> if positive {
                x@[base + j] > 0
            } else {
                x@[base + j] < 0
            }),
{
    let mut bits: u64 = 0;
    let mut j: usize = 0;
    proof {
        lemma_word_bit_zero();
    }
    while j < 64
        invariant
            base + 64 <= x.len(),
            j <= 64,
            forall|m: int|
                0 <= m < j ==> (#[trigger] word_bit(bits, m) <==> if positive {
                    x@[base + m] > 0
                } else {
                    x@[base + m] < 0
                }),
            forall|m: int| j <= m < 64 ==> !#[trigger] word_bit(bits, m),
        decreases 64 - j,
    {
        let v = x[base + j];
        let set = if positive { v > 0 } else { v < 0 };
        if set {
            let ghost old_bits = bits;
            let jj = j as u64;
            proof {
                lemma_word_bit_set(old_bits, jj);
            }
            bits = bits | (1u64 << jj);
        }
        j += 1;
    }
    bits
}

/// Quantizes activations to ternary bit planes, 256 per block, and returns
/// their mean absolute value (0 for no activations). Bit `j` of word `k` of
/// block `i` stands for `x_i8[256 * i + 64 * k + j]`: set in `w_pos_bits` when
/// it is positive, in `w_neg_bits` when it is negative. A tail shorter than
/// 256 gets no block.
pub fn quantize_to_ternary(x_i8: &[i8], blocks: &mut [vec101_block]) -> (scale: i32)
    requires
        x_i8@.len() < 0x0100_0000_0000_0000,
        old(blocks)@.len() >= x_i8@.len() / 256,
    ensures
        scale == (if x_i8@.len() == 0 { 0 } else { sum_abs(x_i8@) / (x_i8@.len() as int) }),
        final(blocks)@.len() == old(blocks)@.len(),
        forall|i: int, k: int, j: int|
            0 <= i < x_i8@.len() / 256 && 0 <= k < 4 && 0 <= j < 64 ==> (#[trigger] word_bit(
                final(blocks)@[i].w_pos_bits@[k],
                j,
            ) <==> x_i8@[256 * i + 64 * k + j] > 0),
        forall|i: int, k: int, j: int|
            0 <= i < x_i8@.len() / 256 && 0 <= k < 4 && 0 <= j < 64 ==> (#[trigger] word_bit(
                final(blocks)@[i].w_neg_bits@[k],
                j,
            ) <==> x_i8@[256 * i + 64 * k + j] < 0),
        forall|i: int|
            x_i8@.len() / 256 <= i < old(blocks)@.len() ==> #[trigger] final(blocks)@[i] == old(blocks)@[i],
{
    let n = x_i8.len();
    let mut total: i64 = 0;
    let mut t: usize = 0;
    while t < n
        invariant
            n == x_i8@.len(),
            n < 0x0100_0000_0000_0000,
            t <= n,
            total == sum_abs(x_i8@.take(t as int)),
        decreases n - t,
    {
        proof {
            assert(x_i8@.take(t + 1).drop_last() =~= x_i8@.take(t as int));
            lemma_sum_abs_bound(x_i8@.take(t + 1));
            assert(x_i8@.take(t + 1).last() == x_i8@[t as int]);
        }
        let v = x_i8[t] as i64;
        total = total + if v < 0 { -v } else { v };
        t += 1;
    }
    proof {
        assert(x_i8@.take(n as int) =~= x_i8@);
        lemma_sum_abs_bound(x_i8@);
    }
    let scale: i32 = if n == 0 {
        0
    } else {
        proof {
            assert((total as int) / (n as int) <= 128) by (nonlinear_arith)
                requires 0 <= total <= 128 * n, n > 0;
        }
        (total / n as i64) as i32
    };
    let nb = n / 256;
    let mut i: usize = 0;
    while i < nb
        invariant
            n == x_i8@.len(),
            nb == x_i8@.len() / 256,
            i <= nb,
            blocks@.len() == old(blocks)@.len(),
            old(blocks)@.len() >= nb,
            forall|b: int, k: int, j: int|
                0 <= b < i && 0 <= k < 4 && 0 <= j < 64 ==> (#[trigger] word_bit(
                    blocks@[b].w_pos_bits@[k],
                    j,
                ) <==> x_i8@[256 * b + 64 * k + j] > 0),
            forall|b: int, k: int, j: int|
                0 <= b < i && 0 <= k < 4 && 0 <= j < 64 ==> (#[trigger] word_bit(
                    blocks@[b].w_neg_bits@[k],
                    j,
                ) <==> x_i8@[256 * b + 64 * k + j] < 0),
            forall|b: int| i <= b < old(blocks)@.len() ==> #[trigger] blocks@[b] == old(blocks)@[b],
        decreases nb - i,
    {
        proof {
            assert(i * 256 + 256 <= n) by (nonlinear_arith)
                requires i < nb, nb == n / 256;
        }
        let base = i * 256;
        let mut pos = [0u64; 4];
        let mut neg = [0u64; 4];
        let mut k: usize = 0;
        while k < 4
            invariant
                base == i * 256,
                base + 256 <= x_i8.len(),
                k <= 4,
                forall|kk: int, j: int|
                    0 <= kk < k && 0 <= j < 64 ==> (#[trigger] word_bit(pos@[kk], j) <==> x_i8@[base + 64
                        * kk + j] > 0),
                forall|kk: int, j: int|
                    0 <= kk < k && 0 <= j < 64 ==> (#[trigger] word_bit(neg@[kk], j) <==> x_i8@[base + 64
                        * kk + j] < 0),
            decreases 4 - k,
        {
            let pb = sign_bits(x_i8, base + k * 64, true);
            let nbits = sign_bits(x_i8, base + k * 64, false);
            pos[k] = pb;
            neg[k] = nbits;
            k += 1;
        }
        let ghost old_blocks = blocks@;
        blocks[i] = vec101_block { w_pos_bits: pos, w_neg_bits: neg };
        proof {
            assert forall|b: int, k: int, j: int|
                0 <= b < i + 1 && 0 <= k < 4 && 0 <= j < 64 implies (#[trigger] word_bit(
                    blocks@[b].w_pos_bits@[k],
                    j,
                ) <==> x_i8@[256 * b + 64 * k + j] > 0) by {
                if b == i {
                    assert(word_bit(pos@[k], j) <==> x_i8@[base + 64 * k + j] > 0);
                } else {
                    assert(blocks@[b] == old_blocks[b]);
                }
            }
            assert forall|b: int, k: int, j: int|
                0 <= b < i + 1 && 0 <= k < 4 && 0 <= j < 64 implies (#[trigger] word_bit(
                    blocks@[b].w_neg_bits@[k],
                    j,
                ) <==> x_i8@[256 * b + 64 * k + j] < 0) by {
                if b == i {
                    assert(word_bit(neg@[k], j) <==> x_i8@[base + 64 * k + j] < 0);
                } else {
                    assert(blocks@[b] == old_blocks[b]);
                }
            }
        }
        i += 1;
    }
    scale
}

// ---------------------------------------------------------------------------
// Integer passes of the int8 kernels with floating-point scales
// ---------------------------------------------------------------------------

/// `sum_{i < n} x[i]^2`.
pub open spec fn sum_squares(x: Seq<i8>, n: nat) -> int
    decreases n,
{
    if n == 0 {
        0
    } else {
        sum_squares(x, (n - 1) as nat) + x[n - 1] * x[n - 1]
    }
}

/// The products `a[i] * b[i]` of the first `n` entries.
pub open spec fn products_i8(a: Seq<i8>, b: Seq<i8>, n: nat) -> Seq<int> {
    Seq::new(n, |i: int| a[i] * b[i])
}

/// Sum of squares of an int8 row, accumulated in `i32` (every partial sum fits).
pub fn sum_squares_i8(x: &[i8]) -> (r: i32)
    requires
        forall|m: nat| m <= x@.len() ==> #[trigger] sum_squares(x@, m) <= i32::MAX,
    ensures
        r == sum_squares(x@, x@.len() as nat),
{
    let mut acc: i32 = 0;
    let mut i: usize = 0;
    while i < x.len()
        invariant
            i <= x@.len(),
            forall|m: nat| m <= x@.len() ==> #[trigger] sum_squares(x@, m) <= i32::MAX,
            acc == sum_squares(x@, i as nat),
            acc >= 0,
        decreases x@.len() - i,
    {
        let v = x[i] as i32;
        proof {
            assert(0 <= v * v <= 16384) by (nonlinear_arith)
                requires -128 <= v < 128;
            assert(sum_squares(x@, (i + 1) as nat) <= i32::MAX);
        }
        acc = acc + v * v;
        i += 1;
    }
    acc
}

/// The largest `|a[i] * b[i]|` over the entries both slices have (0 for none).
pub fn max_abs_product(a: &[i8], b: &[i8]) -> (r: i32)
    ensures
        r == max_abs(products_i8(a@, b@, crate::arith::min(a@.len() as int, b@.len() as int) as nat)),
{
    let n = if a.len() < b.len() { a.len() } else { b.len() };
    let ghost all = products_i8(a@, b@, n as nat);
    let mut m: i32 = 0;
    let mut i: usize = 0;
    while i < n
        invariant
            n <= a@.len(),
            n <= b@.len(),
            i <= n,
            all == products_i8(a@, b@, n as nat),
            m == max_abs(all.take(i as int)),
            0 <= m <= 16384,
        decreases n - i,
    {
        let x = a[i] as i32;
        let y = b[i] as i32;
        proof {
            assert(-16384 <= x * y <= 16384) by (nonlinear_arith)
                requires -128 <= x < 128, -128 <= y < 128;
            assert(all.take(i + 1).drop_last() =~= all.take(i as int));
            assert(all.take(i + 1).last() == x * y);
        }
        let p = x * y;
        let ap = if p < 0 { -p } else { p };
        if ap > m {
            m = ap;
        }
        i += 1;
    }
    proof {
        assert(all.take(n as int) =~= all);
    }
    m
}

/// A product requantized with a Q15 multiplier: `prod * mult >> 15`,
/// truncated to `i32` and clamped to the int8 range.
pub open spec fn requantize_q15_spec(prod: i32, mult: i32) -> i8 {
    clamp((shr(prod * mult, 15) as i32) as int, -128, 127) as i8
}

/// Requantizes a product with a Q15 multiplier to int8.
pub fn requantize_q15(prod: i32, mult: i32) -> (r: i8)
    ensures
        r == requantize_q15_spec(prod, mult),
{
    proof {
        lemma_i32_mul_fits(prod, mult);
    }
    let wide: i64 = prod as i64 * mult as i64;
    assert((wide >> 15u64) == wide / 32768) by (bit_vector);
    proof {
        vstd::arithmetic::power2::lemma2_to64();
    }
    let q: i32 = (wide >> 15u64) as i32;
    clamp_i32(q, -128, 127) as i8
}

} // verus!
