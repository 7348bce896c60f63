use vstd::prelude::*;
use crate::arith::{abs, clamp, clamp_i32, tdiv};
use crate::ops::{word_bit, lemma_word_bit_zero, lemma_word_bit_set};
use crate::types::{vec101_block, Vec101SuperBlock};

verus! {

broadcast use vstd::array::group_array_axioms;

// ---------------------------------------------------------------------------
// Dynamic int8 quantization
// ---------------------------------------------------------------------------

/// The largest absolute value in `s` (0 for none).
pub open spec fn max_abs_i32(s: Seq<i32>) -> int
    decreases s.len(),
{
    if s.len() == 0 {
        0
    } else {
        let m = max_abs_i32(s.drop_last());
        if abs(s.last() as int) > m {
            abs(s.last() as int)
        } else {
            m
        }
    }
}

/// The scale [`dynamic_quantize_to_int8`] picks for a largest magnitude `m`:
/// `m / 127`, or 1 when that is 0.
pub open spec fn int8_scale_of(m: int) -> i32 {
    if m / 127 == 0 {
        1
    } else {
        (m / 127) as i32
    }
}

/// The int8 value of `v` for a largest magnitude `m`: 0 when everything is 0,
/// `v` clamped when the scale is below 1, else `v / (m / 127)` clamped.
pub open spec fn int8_value_of(v: int, m: int) -> i8 {
    if m == 0 {
        0
    } else if m / 127 == 0 {
        clamp(v, -128, 127) as i8
    } else {
        clamp(tdiv(v, m / 127), -128, 127) as i8
    }
}

proof fn lemma_max_abs_i32(s: Seq<i32>)
    requires
        forall|i: int| 0 <= i < s.len() ==> #[trigger] s[i] != i32::MIN,
    ensures
        0 <= max_abs_i32(s) <= i32::MAX,
    decreases s.len(),
{
    if s.len() > 0 {
        assert forall|i: int| 0 <= i < s.drop_last().len() implies #[trigger] s.drop_last()[i] != i32::MIN by {
            assert(s.drop_last()[i] == s[i]);
        }
        lemma_max_abs_i32(s.drop_last());
        assert(s[s.len() - 1] != i32::MIN);
    }
}

/// The largest magnitude bounds every element from both sides, and some element
/// (when there is one) reaches it; with no element it is 0.
pub proof fn lemma_max_abs_is_largest(s: Seq<i32>)
    ensures
        max_abs_i32(s) >= 0,
        forall|i: int| 0 <= i < s.len() ==> -max_abs_i32(s) <= #[trigger] s[i] <= max_abs_i32(s),
        s.len() > 0 ==> exists|i: int|
            0 <= i < s.len() && (#[trigger] s[i] == max_abs_i32(s) || s[i] == -max_abs_i32(s)),
        s.len() == 0 ==> max_abs_i32(s) == 0,
    decreases s.len(),
{
    if s.len() > 0 {
        let p = s.drop_last();
        lemma_max_abs_is_largest(p);
        let m = max_abs_i32(s);
        assert forall|i: int| 0 <= i < s.len() implies -m <= #[trigger] s[i] <= m by {
            if i < s.len() - 1 {
                assert(s[i] == p[i]);
            }
        }
        let last = s.len() - 1;
        if abs(s.last() as int) > max_abs_i32(p) || p.len() == 0 {
            assert(s[last] == m || s[last] == -m);
        } else {
            let j = choose|j: int| 0 <= j < p.len() && (#[trigger] p[j] == max_abs_i32(p) || p[j] == -max_abs_i32(p));
            assert(s[j] == p[j]);
            assert(s[j] == m || s[j] == -m);
        }
    }
}

/// `a / d` brackets `a` between consecutive multiples of `d`.
proof fn lemma_div_bracket(a: int, d: int)
    requires
        a >= 0,
        d > 0,
    ensures
        0 <= a / d,
        d * (a / d) <= a < d * (a / d) + d,
{
    vstd::arithmetic::div_mod::lemma_fundamental_div_mod(a, d);
    vstd::arithmetic::div_mod::lemma_mod_bound(a, d);
    assert(0 <= a / d) by (nonlinear_arith)
        requires a == d * (a / d) + (a % d), 0 <= a % d < d, a >= 0, d > 0;
}

/// The scale picked for a largest magnitude `m` is 1 below 127, and otherwise the
/// largest `k` with `127 * k <= m`.
pub proof fn lemma_int8_scale(m: int)
    requires
        0 <= m <= i32::MAX,
    ensures
        int8_scale_of(m) >= 1,
        m < 127 ==> int8_scale_of(m) == 1,
        m >= 127 ==> 127 * int8_scale_of(m) <= m < 127 * int8_scale_of(m) + 127,
{
    lemma_div_bracket(m, 127);
}

/// The int8 value of an element `v` with `|v| <= m`, for the largest magnitude
/// `m`: 0 when all is 0; `v` itself when `m < 127`; otherwise, with `s` the
/// scale, the quotient of `v` by `s` rounded toward zero (`q * s <= v < (q + 1) * s`
/// for `v >= 0`, `(q - 1) * s < v <= q * s` for `v < 0`), saturating at 127 and -128.
pub proof fn lemma_int8_value(v: int, m: int)
    requires
        0 <= m <= i32::MAX,
        -m <= v <= m,
    ensures
        m == 0 ==> int8_value_of(v, m) == 0,
        0 < m < 127 ==> int8_value_of(v, m) == v,
        m >= 127 ==> {
            let sc = int8_scale_of(m) as int;
            let q = int8_value_of(v, m) as int;
            &&& (0 <= v < 128 * sc ==> q * sc <= v < q * sc + sc)
            &&& (-129 * sc < v < 0 ==> q * sc - sc < v <= q * sc)
            &&& (v >= 128 * sc ==> q == 127)
            &&& (v <= -129 * sc ==> q == -128)
        },
{
    lemma_int8_scale(m);
    if m >= 127 {
        let sc = int8_scale_of(m) as int;
        lemma_div_bracket(m, 127);
        assert(sc == m / 127);
        if v >= 0 {
            lemma_div_bracket(v, sc);
            let t = v / sc;
            assert(tdiv(v, sc) == t);
            if v < 128 * sc {
                assert(t < 128) by (nonlinear_arith)
                    requires sc * t <= v, v < 128 * sc, sc > 0;
                assert(int8_value_of(v, m) as int == t);
                assert(t * sc <= v < t * sc + sc) by (nonlinear_arith)
                    requires sc * t <= v < sc * t + sc;
            } else {
                assert(t >= 128) by (nonlinear_arith)
                    requires v < sc * t + sc, v >= 128 * sc, sc > 0;
                assert(int8_value_of(v, m) as int == 127);
            }
        } else {
            lemma_div_bracket(-v, sc);
            let t = (-v) / sc;
            assert(tdiv(v, sc) == -t);
            if v > -129 * sc {
                assert(t <= 128) by (nonlinear_arith)
                    requires sc * t <= -v, -v < 129 * sc, sc > 0;
                assert(int8_value_of(v, m) as int == -t);
                assert((-t) * sc - sc < v <= (-t) * sc) by (nonlinear_arith)
                    requires sc * t <= -v < sc * t + sc;
            } else {
                assert(t >= 129) by (nonlinear_arith)
                    requires -v < sc * t + sc, -v >= 129 * sc, sc > 0;
                assert(int8_value_of(v, m) as int == -128);
            }
        }
    }
}

/// Dynamically quantizes an INT32 array to INT8 using pure integer arithmetic.
/// Returns the INT8 array and the dynamic scaling factor.
pub fn dynamic_quantize_to_int8(input: &[i32]) -> (r: (Vec<i8>, i32))
    requires
        forall|i: int| 0 <= i < input@.len() ==> #[trigger] input@[i] != i32::MIN,
    ensures
        r.0@.len() == input@.len(),
        r.1 == (if max_abs_i32(input@) == 0 { 1 } else { int8_scale_of(max_abs_i32(input@)) }),
        forall|i: int|
            0 <= i < input@.len() ==> #[trigger] r.0@[i] == int8_value_of(input@[i] as int, max_abs_i32(input@)),
{
    let n = input.len();
    let mut max_abs: i32 = 0;
    let mut i: usize = 0;
    proof {
        assert(input@.take(0) =~= Seq::<i32>::empty());
    }
    while i < n
        invariant
            n == input@.len(),
            forall|k: int| 0 <= k < n ==> #[trigger] input@[k] != i32::MIN,
            i <= n,
            max_abs == max_abs_i32(input@.take(i as int)),
        decreases n - i,
    {
        proof {
            assert(input@.take(i + 1).drop_last() =~= input@.take(i as int));
            assert(input@.take(i + 1).last() == input@[i as int]);
        }
        let v = input[i];
        let a = if v < 0 { -v } else { v };
        if a > max_abs {
            max_abs = a;
        }
        i += 1;
    }
    proof {
        assert(input@.take(n as int) =~= input@);
    }
    let ghost m = max_abs as int;
    let mut quantized: Vec<i8> = Vec::new();
    if max_abs == 0 {
        let mut k: usize = 0;
        while k < n
            invariant
                n == input@.len(),
                m == 0,
                m == max_abs_i32(input@),
                k <= n,
                quantized@.len() == k,
                forall|j: int| 0 <= j < k ==> #[trigger] quantized@[j] == int8_value_of(input@[j] as int, m),
            decreases n - k,
        {
            quantized.push(0);
            k += 1;
        }
        return (quantized, 1);
    }
    let scale_factor = max_abs / 127;
    let mut k: usize = 0;
    while k < n
        invariant
            n == input@.len(),
            m == max_abs_i32(input@),
            m == max_abs,
            m != 0,
            scale_factor == max_abs / 127,
            k <= n,
            quantized@.len() == k,
            forall|j: int| 0 <= j < k ==> #[trigger] quantized@[j] == int8_value_of(input@[j] as int, m),
        decreases n - k,
    {
        let v = input[k];
        let q = if scale_factor == 0 { clamp_i32(v, -128, 127) } else { clamp_i32(v / scale_factor, -128, 127) };
        quantized.push(q as i8);
        k += 1;
    }
    if scale_factor == 0 {
        (quantized, 1)
    } else {
        (quantized, scale_factor)
    }
}

// ---------------------------------------------------------------------------
// Activation reordering
// ---------------------------------------------------------------------------

/// Reorders the activation memory according to a given routing layout (`I_Stream`).
/// This prepares the continuous `X_Stream` for `vec101_compute`: block `b` of the
/// result is block `i_stream[b]` of the input, read cyclically.
pub fn memory_reorder(quantized_input: &[i8], i_stream: &[u32], block_size: usize) -> (x_stream: Vec<i8>)
    requires
        i_stream@.len() * block_size <= usize::MAX,
        forall|b: int|
            0 <= b < i_stream@.len() ==> (#[trigger] i_stream@[b]) * block_size + block_size <= usize::MAX + 1,
        i_stream@.len() > 0 && block_size > 0 ==> quantized_input@.len() > 0,
    ensures
        x_stream@.len() == i_stream@.len() * block_size,
        forall|b: int, i: int|
            0 <= b < i_stream@.len() && 0 <= i < block_size ==> #[trigger] x_stream@[b * block_size + i]
                == quantized_input@[((i_stream@[b] as int) * block_size + i) % (quantized_input@.len() as int)],
{
    let num_blocks = i_stream.len();
    let n = quantized_input.len();
    let mut x_stream: Vec<i8> = Vec::new();
    let mut b: usize = 0;
    while b < num_blocks
        invariant
            num_blocks == i_stream@.len(),
            n == quantized_input@.len(),
            num_blocks * block_size <= usize::MAX,
            forall|b2: int|
                0 <= b2 < num_blocks ==> (#[trigger] i_stream@[b2]) * block_size + block_size <= usize::MAX + 1,
            num_blocks > 0 && block_size > 0 ==> n > 0,
            b <= num_blocks,
            x_stream@.len() == b * block_size,
            forall|b2: int, i: int|
                0 <= b2 < b && 0 <= i < block_size ==> #[trigger] x_stream@[b2 * block_size + i]
                    == quantized_input@[((i_stream@[b2] as int) * block_size + i) % (n as int)],
        decreases num_blocks - b,
    {
        let ghost before = x_stream@;
        let i_val = i_stream[b] as usize;
        proof {
            assert(i_val * block_size <= usize::MAX) by (nonlinear_arith)
                requires i_val * block_size + block_size <= usize::MAX + 1, block_size > 0 || i_val * block_size == 0;
            assert((b + 1) * block_size <= num_blocks * block_size) by (nonlinear_arith)
                requires b < num_blocks;
        }
        let src_offset = if block_size == 0 { 0 } else { i_val * block_size };
        let mut i: usize = 0;
        while i < block_size
            invariant
                n == quantized_input@.len(),
                block_size > 0 ==> n > 0,
                src_offset + block_size <= usize::MAX + 1,
                src_offset == (i_stream@[b as int] as int) * block_size,
                i <= block_size,
                x_stream@.len() == b * block_size + i,
                forall|j: int| 0 <= j < b * block_size ==> #[trigger] x_stream@[j] == before[j],
                forall|i2: int|
                    0 <= i2 < i ==> #[trigger] x_stream@[b * block_size + i2] == quantized_input@[(src_offset + i2)
                        % (n as int)],
            decreases block_size - i,
        {
            x_stream.push(quantized_input[(src_offset + i) % n]);
            i += 1;
        }
        proof {
            assert forall|b2: int, i2: int|
                0 <= b2 < b + 1 && 0 <= i2 < block_size implies #[trigger] x_stream@[b2 * block_size + i2]
                    == quantized_input@[((i_stream@[b2] as int) * block_size + i2) % (n as int)] by {
                if b2 < b {
                    assert(b2 * block_size + i2 < b * block_size) by (nonlinear_arith)
                        requires b2 < b, i2 < block_size;
                    assert(0 <= b2 * block_size) by (nonlinear_arith)
                        requires 0 <= b2;
                    assert(x_stream@[b2 * block_size + i2] == before[b2 * block_size + i2]);
                }
            }
            assert((b + 1) * block_size == b * block_size + block_size) by (nonlinear_arith);
        }
        b += 1;
    }
    x_stream
}

// ---------------------------------------------------------------------------
// Packing weights into superblocks
// ---------------------------------------------------------------------------

/// Sum of the absolute values of `s`.
pub open spec fn sum_abs_i32(s: Seq<i32>) -> int
    decreases s.len(),
{
    if s.len() == 0 {
        0
    } else {
        sum_abs_i32(s.drop_last()) + abs(s.last() as int)
    }
}

/// The scale of the 256 weights from `base`: their mean absolute value
/// (truncated to `i32`), or 1 when it is 0.
pub open spec fn block_scale(w: Seq<i32>, base: int) -> i32 {
    let mean = sum_abs_i32(w.subrange(base, base + 256)) / 256;
    if mean == 0 {
        1
    } else {
        mean as i32
    }
}

/// The ternary value of a weight: its quotient by the scale, clamped to [-1, 1].
pub open spec fn ternary_of(w: int, scale: int) -> int {
    clamp(tdiv(w, scale), -1, 1)
}

proof fn lemma_sum_abs_i32(s: Seq<i32>)
    ensures
        0 <= sum_abs_i32(s) <= s.len() * 0x8000_0000,
    decreases s.len(),
{
    if s.len() > 0 {
        lemma_sum_abs_i32(s.drop_last());
    }
}

/// The sum of magnitudes adds up over a concatenation, and is `|x|` for a single
/// element `x`.
pub proof fn lemma_sum_abs_additive(a: Seq<i32>, b: Seq<i32>, x: i32)
    ensures
        sum_abs_i32(a + b) == sum_abs_i32(a) + sum_abs_i32(b),
        sum_abs_i32(seq![x]) == if x < 0 { -x } else { x as int },
    decreases b.len(),
{
    assert(seq![x].drop_last() =~= Seq::<i32>::empty());
    assert(sum_abs_i32(Seq::<i32>::empty()) == 0);
    assert(seq![x].last() == x);
    assert(sum_abs_i32(seq![x]) == sum_abs_i32(seq![x].drop_last()) + abs(x as int));
    if b.len() > 0 {
        assert((a + b).drop_last() =~= a + b.drop_last());
        lemma_sum_abs_additive(a, b.drop_last(), x);
    } else {
        assert(a + b =~= a);
    }
}

/// The scale of a block of 256 weights whose magnitudes sum to `S` (below
/// `256 * 2^31`): 1 when `S < 256`, else the largest `k` with `256 * k <= S`.
pub proof fn lemma_block_scale(w: Seq<i32>, base: int)
    requires
        0 <= base,
        base + 256 <= w.len(),
        sum_abs_i32(w.subrange(base, base + 256)) < 256 * 0x8000_0000,
    ensures
        sum_abs_i32(w.subrange(base, base + 256)) < 256 ==> block_scale(w, base) == 1,
        sum_abs_i32(w.subrange(base, base + 256)) >= 256 ==> 256 * block_scale(w, base) <= sum_abs_i32(
            w.subrange(base, base + 256),
        ) < 256 * block_scale(w, base) + 256,
{
    let t = sum_abs_i32(w.subrange(base, base + 256));
    lemma_sum_abs_i32(w.subrange(base, base + 256));
    lemma_div_bracket(t, 256);
}

/// For a scale `s >= 1`, a weight is +1 when it is at least `s`, -1 when it is at
/// most `-s`, and 0 in between.
pub proof fn lemma_ternary_of(w: int, s: int)
    requires
        s >= 1,
    ensures
        ternary_of(w, s) == (if w >= s { 1int } else if w <= -s { -1int } else { 0int }),
{
    if w >= 0 {
        lemma_div_bracket(w, s);
        if w >= s {
            assert(w / s >= 1) by (nonlinear_arith)
                requires w < s * (w / s) + s, w >= s, s > 0;
        } else {
            assert(w / s == 0) by (nonlinear_arith)
                requires s * (w / s) <= w, w < s, 0 <= w / s, s > 0;
        }
    } else {
        lemma_div_bracket(-w, s);
        if -w >= s {
            assert((-w) / s >= 1) by (nonlinear_arith)
                requires -w < s * ((-w) / s) + s, -w >= s, s > 0;
        } else {
            assert((-w) / s == 0) by (nonlinear_arith)
                requires s * ((-w) / s) <= -w, -w < s, 0 <= (-w) / s, s > 0;
        }
    }
}

/// The scale of the 256 weights from `base`.
fn block_scale_of(w: &[i32], base: usize) -> (r: i32)
    requires
        base + 256 <= w.len(),
    ensures
        r == block_scale(w@, base as int),
        r >= 1 || r == i32::MIN,
{
    let ghost blk = w@.subrange(base as int, base + 256);
    let mut sum: i64 = 0;
    let mut i: usize = 0;
    proof {
        assert(blk.take(0) =~= Seq::<i32>::empty());
    }
    while i < 256
        invariant
            base + 256 <= w.len(),
            blk == w@.subrange(base as int, base + 256),
            i <= 256,
            sum == sum_abs_i32(blk.take(i as int)),
        decreases 256 - i,
    {
        proof {
            assert(blk.take(i + 1).drop_last() =~= blk.take(i as int));
            assert(blk.take(i + 1).last() == w@[base + i]);
            lemma_sum_abs_i32(blk.take(i as int));
        }
        let v = w[base + i] as i64;
        sum = sum + if v < 0 { -v } else { v };
        i += 1;
    }
    proof {
        assert(blk.take(256) =~= blk);
        lemma_sum_abs_i32(blk);
    }
    let mean = sum / 256;
    if mean == 0 {
        1
    } else {
        proof {
            assert(1 <= mean <= 0x8000_0000);
            if mean == 0x8000_0000 {
                assert((mean as i32) == i32::MIN) by (bit_vector)
                    requires mean == 0x8000_0000i64;
            }
        }
        mean as i32
    }
}

/// `w / scale` for a scale that is positive or `i32::MIN`.
fn div_by_scale(w: i32, scale: i32) -> (r: i32)
    requires
        scale >= 1 || scale == i32::MIN,
    ensures
        r == tdiv(w as int, scale as int),
{
    if scale == i32::MIN {
        if w == i32::MIN { 1 } else { 0 }
    } else {
        w / scale
    }
}

/// The bits of 64 weights from `base`: bit `j` set where the ternary value
/// of `w[base + j]` is `want`.
fn ternary_bits(w: &[i32], base: usize, scale: i32, want: i32) -> (r: u64)
    requires
        base + 64 <= w.len(),
        scale >= 1 || scale == i32::MIN,
    ensures
        forall|j: int|
            0 <= j < 64 ==> (#[trigger] word_bit(r, j) <==> ternary_of(w@[base + j] as int, scale as int) == want),
{
    let mut bits: u64 = 0;
    let mut j: usize = 0;
    proof {
        lemma_word_bit_zero();
    }
    while j < 64
        invariant
            base + 64 <= w.len(),
            scale >= 1 || scale == i32::MIN,
            j <= 64,
            forall|m: int|
                0 <= m < j ==> (#[trigger] word_bit(bits, m) <==> ternary_of(w@[base + m] as int, scale as int) == want),
            forall|m: int| j <= m < 64 ==> !#[trigger] word_bit(bits, m),
        decreases 64 - j,
    {
        let q = div_by_scale(w[base + j], scale);
        let t = clamp_i32(q, -1, 1);
        if t == want {
            let jj = j as u64;
            proof {
                lemma_word_bit_set(bits, jj);
            }
            bits = bits | (1u64 << jj);
        }
        j += 1;
    }
    bits
}

/// `r` holds the superblocks of the weights `w`: one per 2048 weights, each
/// block of 256 with the scale [`block_scale`] (stored clamped to `i16`),
/// zero offsets and padding, and weight `i` of the block setting bit `i % 64`
/// of word `i / 64` of `w_pos_bits` or `w_neg_bits` when its [`ternary_of`]
/// value is 1 or -1.
pub open spec fn packs(r: Seq<Vec101SuperBlock>, w: Seq<i32>) -> bool {
    &&& r.len() == w.len() / 2048
    &&& forall|s: int, b: int|
        0 <= s < r.len() && 0 <= b < 8 ==> (#[trigger] r[s].scales@[b]) as int == clamp(
            block_scale(w, s * 2048 + b * 256) as int,
            -32768,
            32767,
        )
    &&& forall|s: int, b: int| 0 <= s < r.len() && 0 <= b < 8 ==> #[trigger] r[s].offsets@[b] == 0
    &&& forall|s: int, p: int| 0 <= s < r.len() && 0 <= p < 32 ==> #[trigger] r[s]._padding@[p] == 0
    &&& forall|s: int, b: int, k: int, j: int|
        0 <= s < r.len() && 0 <= b < 8 && 0 <= k < 4 && 0 <= j < 64 ==> (#[trigger] word_bit(
            r[s].blocks@[b].w_pos_bits@[k],
            j,
        ) <==> ternary_of(w[s * 2048 + b * 256 + k * 64 + j] as int, block_scale(w, s * 2048 + b * 256) as int)
            == 1)
    &&& forall|s: int, b: int, k: int, j: int|
        0 <= s < r.len() && 0 <= b < 8 && 0 <= k < 4 && 0 <= j < 64 ==> (#[trigger] word_bit(
            r[s].blocks@[b].w_neg_bits@[k],
            j,
        ) <==> ternary_of(w[s * 2048 + b * 256 + k * 64 + j] as int, block_scale(w, s * 2048 + b * 256) as int)
            == -1)
}

/// Packs INT32 model weights into the highly optimized Dual-Rail `Vec101SuperBlock` format.
/// Applications should use this to load model weights into vec101.
///
/// # Arguments
/// * `weights` - The flattened continuous INT32 weight array. Length must be a multiple of 2048.
pub fn pack_weights_to_superblocks(weights: &[i32]) -> (r: Vec<Vec101SuperBlock>)
    requires
        weights@.len() % 2048 == 0,
    ensures
        packs(r@, weights@),
{
    let n = weights.len();
    let num_superblocks = n / 2048;
    let mut superblocks: Vec<Vec101SuperBlock> = Vec::new();
    let mut sb_idx: usize = 0;
    while sb_idx < num_superblocks
        invariant
            n == weights@.len(),
            n % 2048 == 0,
            num_superblocks == n / 2048,
            sb_idx <= num_superblocks,
            superblocks@.len() == sb_idx,
            forall|s: int, b: int|
                0 <= s < sb_idx && 0 <= b < 8 ==> (#[trigger] superblocks@[s].scales@[b]) as int == clamp(
                    block_scale(weights@, s * 2048 + b * 256) as int,
                    -32768,
                    32767,
                ),
            forall|s: int, b: int| 0 <= s < sb_idx && 0 <= b < 8 ==> #[trigger] superblocks@[s].offsets@[b] == 0,
            forall|s: int, p: int| 0 <= s < sb_idx && 0 <= p < 32 ==> #[trigger] superblocks@[s]._padding@[p] == 0,
            forall|s: int, b: int, k: int, j: int|
                0 <= s < sb_idx && 0 <= b < 8 && 0 <= k < 4 && 0 <= j < 64 ==> (#[trigger] word_bit(
                    superblocks@[s].blocks@[b].w_pos_bits@[k],
                    j,
                ) <==> ternary_of(
                    weights@[s * 2048 + b * 256 + k * 64 + j] as int,
                    block_scale(weights@, s * 2048 + b * 256) as int,
                ) == 1),
            forall|s: int, b: int, k: int, j: int|
                0 <= s < sb_idx && 0 <= b < 8 && 0 <= k < 4 && 0 <= j < 64 ==> (#[trigger] word_bit(
                    superblocks@[s].blocks@[b].w_neg_bits@[k],
                    j,
                ) <==> ternary_of(
                    weights@[s * 2048 + b * 256 + k * 64 + j] as int,
                    block_scale(weights@, s * 2048 + b * 256) as int,
                ) == -1),
        decreases num_superblocks - sb_idx,
    {
        proof {
            assert(sb_idx * 2048 + 2048 <= n) by (nonlinear_arith)
                requires sb_idx < num_superblocks, num_superblocks == n / 2048;
        }
        let sb_base = sb_idx * 2048;
        let mut scales = [0i16; 8];
        let mut blocks = [vec101_block { w_pos_bits: [0u64; 4], w_neg_bits: [0u64; 4] }; 8];
        let mut b: usize = 0;
        while b < 8
            invariant
                sb_base == sb_idx * 2048,
                sb_base + 2048 <= n,
                n == weights@.len(),
                b <= 8,
                forall|b2: int| 0 <= b2 < b ==> (#[trigger] scales@[b2]) as int == clamp(
                    block_scale(weights@, sb_base + b2 * 256) as int,
                    -32768,
                    32767,
                ),
                forall|b2: int, k: int, j: int|
                    0 <= b2 < b && 0 <= k < 4 && 0 <= j < 64 ==> (#[trigger] word_bit(
                        blocks@[b2].w_pos_bits@[k],
                        j,
                    ) <==> ternary_of(
                        weights@[sb_base + b2 * 256 + k * 64 + j] as int,
                        block_scale(weights@, sb_base + b2 * 256) as int,
                    ) == 1),
                forall|b2: int, k: int, j: int|
                    0 <= b2 < b && 0 <= k < 4 && 0 <= j < 64 ==> (#[trigger] word_bit(
                        blocks@[b2].w_neg_bits@[k],
                        j,
                    ) <==> ternary_of(
                        weights@[sb_base + b2 * 256 + k * 64 + j] as int,
                        block_scale(weights@, sb_base + b2 * 256) as int,
                    ) == -1),
            decreases 8 - b,
        {
            let base = sb_base + b * 256;
            let scale = block_scale_of(weights, base);
            scales[b] = clamp_i32(scale, -32768, 32767) as i16;
            let mut pos = [0u64; 4];
            let mut neg = [0u64; 4];
            let mut k: usize = 0;
            while k < 4
                invariant
                    base + 256 <= n,
                    n == weights@.len(),
                    scale >= 1 || scale == i32::MIN,
                    k <= 4,
                    forall|k2: int, j: int|
                        0 <= k2 < k && 0 <= j < 64 ==> (#[trigger] word_bit(pos@[k2], j) <==> ternary_of(
                            weights@[base + k2 * 64 + j] as int,
                            scale as int,
                        ) == 1),
                    forall|k2: int, j: int|
                        0 <= k2 < k && 0 <= j < 64 ==> (#[trigger] word_bit(neg@[k2], j) <==> ternary_of(
                            weights@[base + k2 * 64 + j] as int,
                            scale as int,
                        ) == -1),
                decreases 4 - k,
            {
                pos[k] = ternary_bits(weights, base + k * 64, scale, 1);
                neg[k] = ternary_bits(weights, base + k * 64, scale, -1);
                k += 1;
            }
            let ghost old_blocks = blocks@;
            blocks[b] = vec101_block { w_pos_bits: pos, w_neg_bits: neg };
            proof {
                assert forall|b2: int, k2: int, j: int|
                    0 <= b2 < b + 1 && 0 <= k2 < 4 && 0 <= j < 64 implies (#[trigger] word_bit(
                        blocks@[b2].w_pos_bits@[k2],
                        j,
                    ) <==> ternary_of(
                        weights@[sb_base + b2 * 256 + k2 * 64 + j] as int,
                        block_scale(weights@, sb_base + b2 * 256) as int,
                    ) == 1) by {
                    if b2 < b {
                        assert(blocks@[b2] == old_blocks[b2]);
                    } else {
                        assert(word_bit(pos@[k2], j) <==> ternary_of(
                            weights@[base + k2 * 64 + j] as int,
                            scale as int,
                        ) == 1);
                    }
                }
                assert forall|b2: int, k2: int, j: int|
                    0 <= b2 < b + 1 && 0 <= k2 < 4 && 0 <= j < 64 implies (#[trigger] word_bit(
                        blocks@[b2].w_neg_bits@[k2],
                        j,
                    ) <==> ternary_of(
                        weights@[sb_base + b2 * 256 + k2 * 64 + j] as int,
                        block_scale(weights@, sb_base + b2 * 256) as int,
                    ) == -1) by {
                    if b2 < b {
                        assert(blocks@[b2] == old_blocks[b2]);
                    } else {
                        assert(word_bit(neg@[k2], j) <==> ternary_of(
                            weights@[base + k2 * 64 + j] as int,
                            scale as int,
                        ) == -1);
                    }
                }
            }
            b += 1;
        }
        let offsets = [0i16; 8];
        let padding = [0u8; 32];
        let sb = Vec101SuperBlock { scales, offsets, _padding: padding, blocks };
        let ghost before_push = superblocks@;
        superblocks.push(sb);
        proof {
            assert forall|s: int, b2: int|
                0 <= s < sb_idx + 1 && 0 <= b2 < 8 implies (#[trigger] superblocks@[s].scales@[b2]) as int == clamp(
                    block_scale(weights@, s * 2048 + b2 * 256) as int,
                    -32768,
                    32767,
                ) by {
                if s == sb_idx {
                    assert(superblocks@[s].scales == scales);
                }
            }
            assert forall|s: int, b2: int| 0 <= s < sb_idx + 1 && 0 <= b2 < 8 implies #[trigger] superblocks@[s].offsets@[b2]
                == 0 by {
                if s == sb_idx {
                    assert(superblocks@[s].offsets == offsets);
                    assert(offsets@[b2] == 0);
                } else {
                    assert(superblocks@[s] == before_push[s]);
                    assert(before_push[s].offsets@[b2] == 0);
                }
            }
            assert forall|s: int, p2: int| 0 <= s < sb_idx + 1 && 0 <= p2 < 32 implies #[trigger] superblocks@[s]._padding@[p2]
                == 0 by {
                if s == sb_idx {
                    assert(superblocks@[s]._padding == padding);
                    assert(padding@[p2] == 0);
                } else {
                    assert(superblocks@[s] == before_push[s]);
                    assert(before_push[s]._padding@[p2] == 0);
                }
            }
            assert forall|s: int, b2: int, k: int, j: int|
                0 <= s < sb_idx + 1 && 0 <= b2 < 8 && 0 <= k < 4 && 0 <= j < 64 implies (#[trigger] word_bit(
                    superblocks@[s].blocks@[b2].w_pos_bits@[k],
                    j,
                ) <==> ternary_of(
                    weights@[s * 2048 + b2 * 256 + k * 64 + j] as int,
                    block_scale(weights@, s * 2048 + b2 * 256) as int,
                ) == 1) by {
                if s == sb_idx {
                    assert(superblocks@[s].blocks == blocks);
                }
            }
            assert forall|s: int, b2: int, k: int, j: int|
                0 <= s < sb_idx + 1 && 0 <= b2 < 8 && 0 <= k < 4 && 0 <= j < 64 implies (#[trigger] word_bit(
                    superblocks@[s].blocks@[b2].w_neg_bits@[k],
                    j,
                ) <==> ternary_of(
                    weights@[s * 2048 + b2 * 256 + k * 64 + j] as int,
                    block_scale(weights@, s * 2048 + b2 * 256) as int,
                ) == -1) by {
                if s == sb_idx {
                    assert(superblocks@[s].blocks == blocks);
                }
            }
        }
        sb_idx += 1;
    }
    superblocks
}

// ---------------------------------------------------------------------------
// Superblocks as bytes
// ---------------------------------------------------------------------------

/// Byte `i` (0 = lowest) of `w`.
pub open spec fn u64_byte(w: u64, i: int) -> u8 {
    ((w >> ((8 * i) as u64)) & 0xffu64) as u8
}

/// Byte `i` (0 or 1, little-endian) of `v`.
pub open spec fn i16_byte(v: i16, i: int) -> u8 {
    if i == 0 {
        ((v as u16) & 0xffu16) as u8
    } else {
        ((v as u16) >> 8u16) as u8
    }
}

/// Byte `off` (0 <= off < 576) of a superblock laid out in memory: the eight
/// scales and the eight offsets as little-endian `i16`, the 32 padding bytes,
/// then each block's positive and negative bit planes as little-endian `u64`s.
pub open spec fn superblock_byte(sb: Vec101SuperBlock, off: int) -> u8 {
    if off < 16 {
        i16_byte(sb.scales@[off / 2], off % 2)
    } else if off < 32 {
        i16_byte(sb.offsets@[(off - 16) / 2], (off - 16) % 2)
    } else if off < 64 {
        sb._padding@[off - 32]
    } else {
        let b = (off - 64) / 64;
        let r = (off - 64) % 64;
        if r < 32 {
            u64_byte(sb.blocks@[b].w_pos_bits@[r / 8], r % 8)
        } else {
            u64_byte(sb.blocks@[b].w_neg_bits@[(r - 32) / 8], (r - 32) % 8)
        }
    }
}

fn push_u64_bytes(out: &mut Vec<u8>, w: u64)
    ensures
        final(out)@ == old(out)@ + Seq::new(8, |i: int| u64_byte(w, i)),
{
    let ghost start = out@;
    let mut i: u64 = 0;
    while i < 8
        invariant
            i <= 8,
            out@ == start + Seq::new(i as nat, |k: int| u64_byte(w, k)),
        decreases 8 - i,
    {
        let byte = ((w >> (8 * i)) & 0xffu64) as u8;
        out.push(byte);
        proof {
            assert(out@ =~= start + Seq::new((i + 1) as nat, |k: int| u64_byte(w, k)));
        }
        i += 1;
    }
}

fn push_i16_bytes(out: &mut Vec<u8>, v: i16)
    ensures
        final(out)@ == old(out)@ + Seq::new(2, |i: int| i16_byte(v, i)),
{
    let ghost start = out@;
    let u = v as u16;
    out.push((u & 0xffu16) as u8);
    out.push((u >> 8u16) as u8);
    proof {
        assert(out@ =~= start + Seq::new(2, |i: int| i16_byte(v, i)));
    }
}

/// Appends the 576 bytes of a superblock.
fn push_superblock(out: &mut Vec<u8>, sb: &Vec101SuperBlock)
    ensures
        final(out)@ == old(out)@ + Seq::new(576, |o: int| superblock_byte(*sb, o)),
{
    let ghost start = out@;
    let mut i: usize = 0;
    while i < 8
        invariant
            i <= 8,
            out@ == start + Seq::new((2 * i) as nat, |o: int| superblock_byte(*sb, o)),
        decreases 8 - i,
    {
        push_i16_bytes(out, sb.scales[i]);
        proof {
            assert forall|o: int| 2 * i <= o < 2 * i + 2 implies superblock_byte(*sb, o) == i16_byte(sb.scales@[i as int], o - 2 * i) by {
                assert(o / 2 == i);
                assert(o % 2 == o - 2 * i);
            }
            assert(out@ =~= start + Seq::new((2 * (i + 1)) as nat, |o: int| superblock_byte(*sb, o)));
        }
        i += 1;
    }
    let mut i: usize = 0;
    while i < 8
        invariant
            i <= 8,
            out@ == start + Seq::new((16 + 2 * i) as nat, |o: int| superblock_byte(*sb, o)),
        decreases 8 - i,
    {
        push_i16_bytes(out, sb.offsets[i]);
        proof {
            assert forall|o: int| 16 + 2 * i <= o < 16 + 2 * i + 2 implies superblock_byte(*sb, o) == i16_byte(sb.offsets@[i as int], o - 16 - 2 * i) by {
                assert((o - 16) / 2 == i);
                assert((o - 16) % 2 == o - 16 - 2 * i);
            }
            assert(out@ =~= start + Seq::new((16 + 2 * (i + 1)) as nat, |o: int| superblock_byte(*sb, o)));
        }
        i += 1;
    }
    let mut i: usize = 0;
    while i < 32
        invariant
            i <= 32,
            out@ == start + Seq::new((32 + i) as nat, |o: int| superblock_byte(*sb, o)),
        decreases 32 - i,
    {
        out.push(sb._padding[i]);
        proof {
            assert(out@ =~= start + Seq::new((32 + i + 1) as nat, |o: int| superblock_byte(*sb, o)));
        }
        i += 1;
    }
    let mut b: usize = 0;
    while b < 8
        invariant
            b <= 8,
            out@ == start + Seq::new((64 + 64 * b) as nat, |o: int| superblock_byte(*sb, o)),
        decreases 8 - b,
    {
        let mut k: usize = 0;
        while k < 8
            invariant
                b < 8,
                k <= 8,
                out@ == start + Seq::new((64 + 64 * b + 8 * k) as nat, |o: int| superblock_byte(*sb, o)),
            decreases 8 - k,
        {
            let w = if k < 4 { sb.blocks[b].w_pos_bits[k] } else { sb.blocks[b].w_neg_bits[k - 4] };
            push_u64_bytes(out, w);
            proof {
                assert forall|o: int| 64 + 64 * b + 8 * k <= o < 64 + 64 * b + 8 * k + 8 implies superblock_byte(*sb, o)
                    == u64_byte(w, o - (64 + 64 * b + 8 * k)) by {
                    assert((o - 64) / 64 == b);
                    assert((o - 64) % 64 == 8 * k + (o - (64 + 64 * b + 8 * k)));
                    if k < 4 {
                        assert(((o - 64) % 64) / 8 == k);
                        assert(((o - 64) % 64) % 8 == o - (64 + 64 * b + 8 * k));
                    } else {
                        assert(((o - 64) % 64 - 32) / 8 == k - 4);
                        assert(((o - 64) % 64 - 32) % 8 == o - (64 + 64 * b + 8 * k));
                    }
                }
                assert(out@ =~= start + Seq::new((64 + 64 * b + 8 * (k + 1)) as nat, |o: int| superblock_byte(*sb, o)));
            }
            k += 1;
        }
        b += 1;
    }
}

/// The bytes of superblocks laid out in memory one after the other.
pub open spec fn superblock_stream(sbs: Seq<Vec101SuperBlock>) -> Seq<u8> {
    Seq::new(sbs.len() * 576, |i: int| superblock_byte(sbs[i / 576], i % 576))
}

/// The superblocks laid out in memory one after the other, as the bytes of a
/// weight stream.
pub fn superblocks_to_bytes(sbs: &[Vec101SuperBlock]) -> (r: Vec<u8>)
    requires
        sbs@.len() * 576 <= usize::MAX,
    ensures
        r@ == superblock_stream(sbs@),
{
    let mut out: Vec<u8> = Vec::new();
    let mut s: usize = 0;
    while s < sbs.len()
        invariant
            s <= sbs@.len(),
            out@.len() == s * 576,
            forall|i: int| 0 <= i < out@.len() ==> #[trigger] out@[i] == superblock_byte(sbs@[i / 576], i % 576),
        decreases sbs@.len() - s,
    {
        let ghost before = out@;
        push_superblock(&mut out, &sbs[s]);
        proof {
            assert forall|i: int| 0 <= i < out@.len() implies #[trigger] out@[i] == superblock_byte(sbs@[i / 576], i % 576) by {
                if i >= s * 576 {
                    crate::arith::lemma_row_col(i, s as int, 576);
                } else {
                    assert(out@[i] == before[i]);
                }
            }
        }
        s += 1;
    }
    proof {
        assert(out@ =~= superblock_stream(sbs@));
    }
    out
}

// ---------------------------------------------------------------------------
// Growing and mutating weight streams
// ---------------------------------------------------------------------------

/// One step of the stream's pseudo-random generator (a 64-bit LCG).
#[verifier::opaque]
pub open spec fn lcg_next(s: u64) -> u64 {
    s.wrapping_mul(6364136223846793005u64).wrapping_add(1u64)
}

proof fn lemma_lcg_step(n: int)
    requires
        n >= 0,
    ensures
        lcg_state((n + 1) as nat) == lcg_next(lcg_state(n as nat)),
{
}

/// One step of the generator.
fn lcg_advance(s: u64) -> (r: u64)
    ensures
        r == lcg_next(s),
{
    proof {
        reveal(lcg_next);
    }
    s.wrapping_mul(6364136223846793005u64).wrapping_add(1u64)
}

/// The generator's state after `n` steps from the seed 42.
pub open spec fn lcg_state(n: nat) -> u64
    decreases n,
{
    if n == 0 {
        42
    } else {
        lcg_next(lcg_state((n - 1) as nat))
    }
}

/// The range of appended scales: `max - min`, at least 1.
pub open spec fn scale_range(min_scale: i16, max_scale: i16) -> u64 {
    if max_scale - min_scale > 1 {
        (max_scale - min_scale) as u64
    } else {
        1
    }
}

/// Scale `i` of appended superblock `q`: the minimum plus a draw modulo the
/// range, truncated to `i16`.
pub open spec fn appended_scale(q: int, i: int, min_scale: i16, max_scale: i16) -> i16 {
    ((min_scale as u64) + lcg_state((q * 72 + i + 1) as nat) % scale_range(min_scale, max_scale)) as i16
}

/// Word `k` (0..8: four positive then four negative) of block `b` of appended
/// superblock `q`: a raw draw.
pub open spec fn appended_word(q: int, b: int, k: int) -> u64 {
    lcg_state((q * 72 + 8 + 8 * b + k + 1) as nat)
}

/// The appended superblock `q` is `sb`.
pub open spec fn is_appended(sb: Vec101SuperBlock, q: int, min_scale: i16, max_scale: i16) -> bool {
    &&& forall|i: int| 0 <= i < 8 ==> #[trigger] sb.scales@[i] == appended_scale(q, i, min_scale, max_scale)
    &&& forall|i: int| 0 <= i < 8 ==> #[trigger] sb.offsets@[i] == 0
    &&& forall|i: int| 0 <= i < 32 ==> #[trigger] sb._padding@[i] == 0
    &&& forall|b: int, k: int| 0 <= b < 8 && 0 <= k < 4 ==> #[trigger] sb.blocks@[b].w_pos_bits@[k] == appended_word(q, b, k)
    &&& forall|b: int, k: int| 0 <= b < 8 && 0 <= k < 4 ==> #[trigger] sb.blocks@[b].w_neg_bits@[k] == appended_word(q, b, 4 + k)
}

/// Every scale drawn for the first `count` appended superblocks is computed
/// without overflow.
pub open spec fn append_scales_fit(count: int, min_scale: i16, max_scale: i16) -> bool {
    forall|q: int, i: int|
        0 <= q < count && 0 <= i < 8 ==> (min_scale as u64) + #[trigger] lcg_state((q * 72 + i + 1) as nat)
            % scale_range(min_scale, max_scale) <= u64::MAX
}

/// Generates appended superblock `q` from the generator state before it.
fn generate_superblock(state: u64, q: Ghost<int>, min_scale: i16, max_scale: i16) -> (r: (Vec101SuperBlock, u64))
    requires
        state == lcg_state((q@ * 72) as nat),
        q@ >= 0,
        i16::MIN <= max_scale - min_scale <= i16::MAX,
        forall|i: int| 0 <= i < 8 ==> (min_scale as u64) + #[trigger] lcg_state((q@ * 72 + i + 1) as nat)
            % scale_range(min_scale, max_scale) <= u64::MAX,
    ensures
        is_appended(r.0, q@, min_scale, max_scale),
        r.1 == lcg_state((q@ * 72 + 72) as nat),
{
    let mut rng = state;
    let diff: i16 = max_scale - min_scale;
    let range: u64 = if diff > 1 { diff as u64 } else { 1 };
    let mut scales = [0i16; 8];
    let mut i: usize = 0;
    while i < 8
        invariant
            i <= 8,
            q@ >= 0,
            range == scale_range(min_scale, max_scale),
            rng == lcg_state((q@ * 72 + i) as nat),
            forall|i2: int| 0 <= i2 < 8 ==> (min_scale as u64) + #[trigger] lcg_state((q@ * 72 + i2 + 1) as nat)
                % scale_range(min_scale, max_scale) <= u64::MAX,
            forall|i2: int| 0 <= i2 < i ==> #[trigger] scales@[i2] == appended_scale(q@, i2, min_scale, max_scale),
        decreases 8 - i,
    {
        rng = lcg_advance(rng);
        proof {
            lemma_lcg_step(q@ * 72 + i);
        }
        assert(rng == lcg_state((q@ * 72 + i + 1) as nat));
        let v = (min_scale as u64 + rng % range) as i16;
        scales[i] = v;
        i += 1;
    }
    let mut blocks = [vec101_block { w_pos_bits: [0u64; 4], w_neg_bits: [0u64; 4] }; 8];
    let mut b: usize = 0;
    while b < 8
        invariant
            b <= 8,
            q@ >= 0,
            rng == lcg_state((q@ * 72 + 8 + 8 * b) as nat),
            forall|b2: int, k: int| 0 <= b2 < b && 0 <= k < 4 ==> #[trigger] blocks@[b2].w_pos_bits@[k] == appended_word(q@, b2, k),
            forall|b2: int, k: int| 0 <= b2 < b && 0 <= k < 4 ==> #[trigger] blocks@[b2].w_neg_bits@[k] == appended_word(q@, b2, 4 + k),
        decreases 8 - b,
    {
        let mut pos = [0u64; 4];
        let mut neg = [0u64; 4];
        let mut k: usize = 0;
        while k < 4
            invariant
                k <= 4,
                q@ >= 0,
                b < 8,
                rng == lcg_state((q@ * 72 + 8 + 8 * b + k) as nat),
                forall|k2: int| 0 <= k2 < k ==> #[trigger] pos@[k2] == appended_word(q@, b as int, k2),
            decreases 4 - k,
        {
            rng = lcg_advance(rng);
            proof {
                lemma_lcg_step(q@ * 72 + 8 + 8 * b + k);
            }
            assert(rng == lcg_state((q@ * 72 + 8 + 8 * b + k + 1) as nat));
            pos[k] = rng;
            k += 1;
        }
        let mut k: usize = 0;
        while k < 4
            invariant
                k <= 4,
                q@ >= 0,
                b < 8,
                rng == lcg_state((q@ * 72 + 8 + 8 * b + 4 + k) as nat),
                forall|k2: int| 0 <= k2 < k ==> #[trigger] neg@[k2] == appended_word(q@, b as int, 4 + k2),
            decreases 4 - k,
        {
            rng = lcg_advance(rng);
            proof {
                lemma_lcg_step(q@ * 72 + 8 + 8 * b + 4 + k);
            }
            assert(rng == lcg_state((q@ * 72 + 8 + 8 * b + 4 + k + 1) as nat));
            neg[k] = rng;
            k += 1;
        }
        let ghost old_blocks = blocks@;
        blocks[b] = vec101_block { w_pos_bits: pos, w_neg_bits: neg };
        proof {
            assert forall|b2: int, k2: int| 0 <= b2 < b + 1 && 0 <= k2 < 4 implies #[trigger] blocks@[b2].w_pos_bits@[k2]
                == appended_word(q@, b2, k2) by {
                if b2 < b {
                    assert(blocks@[b2] == old_blocks[b2]);
                }
            }
            assert forall|b2: int, k2: int| 0 <= b2 < b + 1 && 0 <= k2 < 4 implies #[trigger] blocks@[b2].w_neg_bits@[k2]
                == appended_word(q@, b2, 4 + k2) by {
                if b2 < b {
                    assert(blocks@[b2] == old_blocks[b2]);
                }
            }
        }
        b += 1;
    }
    let offsets = [0i16; 8];
    let padding = [0u8; 32];
    (Vec101SuperBlock { scales, offsets, _padding: padding, blocks }, rng)
}

/// Appends superblocks to the weight stream, expanding the output dimension:
/// `ceil(input_dim / 256)` per added row, each filled from the seeded
/// generator (scales in `[min_scale, min_scale + range)`, raw bit planes).
pub fn append_superblocks(
    w_stream: &mut Vec<u8>,
    output_dim_increment: usize,
    input_dim: usize,
    min_scale: i16,
    max_scale: i16,
)
    requires
        i16::MIN <= max_scale - min_scale <= i16::MAX,
        (input_dim + 255) / 256 * 576 * output_dim_increment <= usize::MAX,
        old(w_stream)@.len() + (input_dim + 255) / 256 * 576 * output_dim_increment <= usize::MAX,
        append_scales_fit((input_dim + 255) / 256 * output_dim_increment, min_scale, max_scale),
    ensures
        final(w_stream)@.len() == old(w_stream)@.len() + (input_dim + 255) / 256 * 576 * output_dim_increment,
        final(w_stream)@.subrange(0, old(w_stream)@.len() as int) == old(w_stream)@,
        exists|sbs: Seq<Vec101SuperBlock>|
            {
                &&& sbs.len() == (input_dim + 255) / 256 * output_dim_increment
                &&& forall|q: int| 0 <= q < sbs.len() ==> is_appended(#[trigger] sbs[q], q, min_scale, max_scale)
                &&& final(w_stream)@.subrange(old(w_stream)@.len() as int, final(w_stream)@.len() as int)
                    == superblock_stream(sbs)
            },
{
    let bpr = input_dim / 256 + if input_dim % 256 != 0 { 1 } else { 0 };
    proof {
        assert(bpr == (input_dim + 255) / 256) by (nonlinear_arith)
            requires bpr == input_dim / 256 + if input_dim % 256 != 0 { 1int } else { 0int };
        assert(bpr * output_dim_increment * 576 == bpr * 576 * output_dim_increment) by (nonlinear_arith);
        assert(bpr * output_dim_increment <= bpr * output_dim_increment * 576) by (nonlinear_arith);
    }
    let count = bpr * output_dim_increment;
    let ghost start = w_stream@;
    let ghost mut sbs: Seq<Vec101SuperBlock> = Seq::empty();
    let mut rng: u64 = 42;
    let mut q: usize = 0;
    while q < count
        invariant
            count == (input_dim + 255) / 256 * output_dim_increment,
            count * 576 <= usize::MAX,
            start.len() + count * 576 <= usize::MAX,
            i16::MIN <= max_scale - min_scale <= i16::MAX,
            append_scales_fit(count as int, min_scale, max_scale),
            q <= count,
            sbs.len() == q,
            rng == lcg_state((q * 72) as nat),
            forall|q2: int| 0 <= q2 < q ==> is_appended(#[trigger] sbs[q2], q2, min_scale, max_scale),
            w_stream@ == start + superblock_stream(sbs),
        decreases count - q,
    {
        proof {
            assert forall|i: int| 0 <= i < 8 implies (min_scale as u64) + #[trigger] lcg_state((q * 72 + i + 1) as nat)
                % scale_range(min_scale, max_scale) <= u64::MAX by {
                assert((min_scale as u64) + lcg_state((q as int * 72 + i + 1) as nat) % scale_range(min_scale, max_scale)
                    <= u64::MAX);
            }
        }
        let (sb, next) = generate_superblock(rng, Ghost(q as int), min_scale, max_scale);
        let ghost before = w_stream@;
        push_superblock(w_stream, &sb);
        proof {
            let sbs2 = sbs.push(sb);
            assert forall|i: int| 0 <= i < superblock_stream(sbs2).len() implies #[trigger] superblock_stream(sbs2)[i]
                == (superblock_stream(sbs) + Seq::new(576, |o: int| superblock_byte(sb, o)))[i] by {
                if i < q * 576 {
                    crate::arith::lemma_row_col(i, i / 576, 576);
                    vstd::arithmetic::div_mod::lemma_fundamental_div_mod(i, 576);
                    assert(i / 576 < q) by (nonlinear_arith)
                        requires i < q * 576, 0 <= i;
                } else {
                    crate::arith::lemma_row_col(i, q as int, 576);
                }
            }
            assert(superblock_stream(sbs2) =~= superblock_stream(sbs) + Seq::new(576, |o: int| superblock_byte(sb, o)));
            sbs = sbs2;
            assert((q + 1) * 72 == q * 72 + 72);
            assert((q + 1) * 576 == q * 576 + 576);
        }
        rng = next;
        q += 1;
    }
    proof {
        assert(w_stream@.subrange(0, start.len() as int) =~= start);
        assert(w_stream@.subrange(start.len() as int, w_stream@.len() as int) =~= superblock_stream(sbs));
    }
}

/// One mutation step: a draw decides whether the byte flips a bit (when it
/// is below `threshold`), a second draw picks the bit.
pub open spec fn mutate_step(state: u64, byte: u8, threshold: u32) -> (u64, u8) {
    let s1 = lcg_next(state);
    if ((s1 >> 32u64) as u32) < threshold {
        let s2 = lcg_next(s1);
        (s2, byte ^ (1u8 << ((((s2 >> 32u64) as u32) % 8) as u8)))
    } else {
        (s1, byte)
    }
}

/// The generator state and the bytes after mutating the first `n` bytes.
pub open spec fn mutate_prefix(w: Seq<u8>, threshold: u32, n: nat) -> (u64, Seq<u8>)
    decreases n,
{
    if n == 0 {
        (42, w)
    } else {
        let prev = mutate_prefix(w, threshold, (n - 1) as nat);
        let step = mutate_step(prev.0, prev.1[n - 1], threshold);
        (step.0, prev.1.update(n - 1, step.1))
    }
}

/// `b` is `a` with at most one bit flipped.
pub open spec fn flips_at_most_one_bit(a: u8, b: u8) -> bool {
    b == a || exists|t: u8| t < 8 && b == a ^ (1u8 << t)
}

proof fn lemma_mutate_prefix(w: Seq<u8>, threshold: u32, n: nat)
    requires
        n <= w.len(),
    ensures
        mutate_prefix(w, threshold, n).1.len() == w.len(),
        forall|i: int| n <= i < w.len() ==> #[trigger] mutate_prefix(w, threshold, n).1[i] == w[i],
        forall|i: int| 0 <= i < n ==> flips_at_most_one_bit(w[i], #[trigger] mutate_prefix(w, threshold, n).1[i]),
        threshold == 0 ==> mutate_prefix(w, threshold, n).1 == w,
    decreases n,
{
    if n > 0 {
        lemma_mutate_prefix(w, threshold, (n - 1) as nat);
        let prev = mutate_prefix(w, threshold, (n - 1) as nat);
        let s1 = lcg_next(prev.0);
        let byte = prev.1[n - 1];
        if ((s1 >> 32u64) as u32) < threshold {
            let s2 = lcg_next(s1);
            let t = (((s2 >> 32u64) as u32) % 8) as u8;
            assert(t < 8);
            assert(flips_at_most_one_bit(w[n - 1], byte ^ (1u8 << t)));
        } else {
            assert(prev.1.update(n - 1, byte) =~= prev.1);
        }
    }
}

/// Mutation only ever flips single bits: each byte of the stream comes out
/// as it was or with exactly one bit flipped; with a zero threshold (a zero
/// mutation rate) nothing changes.
pub proof fn lemma_mutation_flips_single_bits(w: Seq<u8>, threshold: u32)
    ensures
        mutate_prefix(w, threshold, w.len()).1.len() == w.len(),
        forall|i: int|
            0 <= i < w.len() ==> flips_at_most_one_bit(w[i], #[trigger] mutate_prefix(w, threshold, w.len()).1[i]),
        threshold == 0 ==> mutate_prefix(w, threshold, w.len()).1 == w,
{
    lemma_mutate_prefix(w, threshold, w.len());
}

/// Randomly mutates bits of the weight stream: each byte flips one bit when
/// a draw of the seeded generator falls below `threshold`.
pub fn mutate_weights_with_threshold(w_stream: &mut [u8], threshold: u32)
    ensures
        final(w_stream)@ == mutate_prefix(old(w_stream)@, threshold, old(w_stream)@.len()).1,
{
    let n = w_stream.len();
    let mut rng: u64 = 42;
    let mut i: usize = 0;
    while i < n
        invariant
            n == old(w_stream)@.len(),
            i <= n,
            rng == mutate_prefix(old(w_stream)@, threshold, i as nat).0,
            w_stream@ == mutate_prefix(old(w_stream)@, threshold, i as nat).1,
            mutate_prefix(old(w_stream)@, threshold, i as nat).1.len() == n,
        decreases n - i,
    {
        rng = lcg_advance(rng);
        let r1 = (rng >> 32u64) as u32;
        if r1 < threshold {
            rng = lcg_advance(rng);
            let r2 = (rng >> 32u64) as u32;
            let bit_idx = (r2 % 8) as u8;
            let byte = w_stream[i];
            w_stream[i] = byte ^ (1u8 << bit_idx);
        }
        i += 1;
    }
}

} // verus!
