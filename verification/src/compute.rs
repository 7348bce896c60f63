use vstd::prelude::*;
use vstd::wrapping::i32_specs::wrapping_add;
use crate::arith::{shr, lemma_i64_shr16};
use crate::types::{QuantType, SUPERBLOCK_BYTES, Q4_BLOCK_BYTES};

verus! {

// ---------------------------------------------------------------------------
// Reading weight streams
// ---------------------------------------------------------------------------

/// Bit `t` (0 = lowest) of the byte `b`, as 0 or 1.
pub open spec fn bit_of(b: u8, t: int) -> int {
    ((b >> (t as u8)) & 1u8) as int
}

/// The little-endian `i16` stored at `w[off]`, `w[off + 1]`.
pub open spec fn i16_at(w: Seq<u8>, off: int) -> int {
    let v = w[off] + 256 * w[off + 1];
    if v >= 32768 { v - 65536 } else { v }
}

/// Ternary weight `k` (0 <= k < 256) of the block whose positive bit plane starts at
/// byte `blk` of `w`, the negative plane following 32 bytes later: +1, -1 or 0
/// (a weight with both bits set counts as 0).
pub open spec fn ternary_weight(w: Seq<u8>, blk: int, k: int) -> int {
    bit_of(w[blk + k / 8], k % 8) - bit_of(w[blk + 32 + k / 8], k % 8)
}

/// Dot product of the first `n` ternary weights of a block with the activations
/// `x[xo..xo + n]`.
pub open spec fn ternary_dot(w: Seq<u8>, blk: int, x: Seq<i8>, xo: int, n: nat) -> int
    decreases n,
{
    if n == 0 {
        0
    } else {
        ternary_dot(w, blk, x, xo, (n - 1) as nat) + ternary_weight(w, blk, n - 1) * x[xo + n - 1]
    }
}

/// Contribution of block `sub` of the superblock at byte `sb` of `w`, for the
/// activations of that superblock starting at `x[xo]`: the block's dot product
/// times the block scale, divided by 256 (rounding down).
pub open spec fn bitnet_term(w: Seq<u8>, sb: int, sub: int, x: Seq<i8>, xo: int) -> int {
    shr(ternary_dot(w, sb + 64 + 64 * sub, x, xo + 256 * sub, 256) * i16_at(w, sb + 2 * sub), 8)
}

/// The 4-bit weight `j` (0 <= j < 32) of the Q4_0 block at byte `blk` of `w`, in [-8, 7].
pub open spec fn q4_weight(w: Seq<u8>, blk: int, j: int) -> int {
    let b = w[blk + 2 + j / 2];
    if j % 2 == 0 { (b % 16) - 8 } else { (b / 16) - 8 }
}

/// Dot product of the first `n` weights of a Q4_0 block with `x[xo..xo + n]`.
pub open spec fn q4_dot(w: Seq<u8>, blk: int, x: Seq<i8>, xo: int, n: nat) -> int
    decreases n,
{
    if n == 0 {
        0
    } else {
        q4_dot(w, blk, x, xo, (n - 1) as nat) + q4_weight(w, blk, n - 1) * x[xo + n - 1]
    }
}

/// Contribution of the Q4_0 block at byte `blk`: its dot product times its scale,
/// divided by 256 (rounding down).
pub open spec fn q4_term(w: Seq<u8>, blk: int, x: Seq<i8>, xo: int) -> int {
    shr(q4_dot(w, blk, x, xo, 32) * i16_at(w, blk), 8)
}

/// Contribution of unit `i` (0 <= i < 8 * blocks_per_row) of row `row` for the
/// activations starting at `x[xo]`: for 1.58-bit weights, block `i % 8` of superblock
/// `i / 8` of the row; for Q4_0 weights, the row's Q4_0 block `i`.
pub open spec fn unit_term(
    qt: QuantType,
    w: Seq<u8>,
    row: int,
    bpr: int,
    i: int,
    x: Seq<i8>,
    xo: int,
) -> int {
    match qt {
        QuantType::Bit1_58 => bitnet_term(
            w,
            (row * bpr + i / 8) * 576,
            i % 8,
            x,
            xo + (i / 8) * 2048,
        ),
        QuantType::Q4_0 => q4_term(w, (row * bpr * 8 + i) * 18, x, xo + i * 32),
    }
}

/// Sum of the first `n` unit contributions of a row, accumulated in an `i32` that
/// wraps around on overflow.
pub open spec fn row_sum(
    qt: QuantType,
    w: Seq<u8>,
    row: int,
    bpr: int,
    x: Seq<i8>,
    xo: int,
    n: nat,
) -> i32
    decreases n,
{
    if n == 0 {
        0
    } else {
        wrapping_add(
            row_sum(qt, w, row, bpr, x, xo, (n - 1) as nat),
            unit_term(qt, w, row, bpr, n - 1, x, xo) as i32,
        )
    }
}

/// What a row adds to its output for the activations starting at `x[xo]`: the row
/// sum times the row scale `s`, divided by 2^16 (rounding down), truncated to `i32`.
pub open spec fn row_output(
    qt: QuantType,
    w: Seq<u8>,
    s: i32,
    row: int,
    bpr: int,
    x: Seq<i8>,
    xo: int,
) -> i32 {
    shr(row_sum(qt, w, row, bpr, x, xo, (bpr * 8) as nat) * s, 16) as i32
}


/// The little-endian `i16` at `w[off]`.
pub fn read_i16(w: &[u8], off: usize) -> (r: i16)
    requires off + 1 < w.len(),
    ensures r as int == i16_at(w@, off as int),
{
    let v: i32 = w[off] as i32 + 256 * (w[off + 1] as i32);
    if v >= 32768 { (v - 65536) as i16 } else { v as i16 }
}

proof fn lemma_bit_of_range(b: u8, t: int)
    requires 0 <= t < 8,
    ensures bit_of(b, t) == 0 || bit_of(b, t) == 1,
{
    let tt = t as u8;
    assert(((b >> tt) & 1u8) == 0u8 || ((b >> tt) & 1u8) == 1u8) by (bit_vector);
}

proof fn lemma_ternary_weight_range(w: Seq<u8>, blk: int, k: int)
    requires 0 <= k < 256,
    ensures -1 <= ternary_weight(w, blk, k) <= 1,
{
    lemma_bit_of_range(w[blk + k / 8], k % 8);
    lemma_bit_of_range(w[blk + 32 + k / 8], k % 8);
}

proof fn lemma_ternary_dot_bound(w: Seq<u8>, blk: int, x: Seq<i8>, xo: int, n: nat)
    requires n <= 256,
    ensures -128 * n <= ternary_dot(w, blk, x, xo, n) <= 128 * n,
    decreases n,
{
    if n > 0 {
        lemma_ternary_dot_bound(w, blk, x, xo, (n - 1) as nat);
        lemma_ternary_weight_range(w, blk, n - 1);
        let t = ternary_weight(w, blk, n - 1);
        let xv = x[xo + n - 1];
        assert(-128 <= t * xv <= 128) by (nonlinear_arith)
            requires -1 <= t <= 1, -128 <= xv <= 127;
    }
}

proof fn lemma_q4_dot_bound(w: Seq<u8>, blk: int, x: Seq<i8>, xo: int, n: nat)
    requires n <= 32,
    ensures -1024 * n <= q4_dot(w, blk, x, xo, n) <= 1024 * n,
    decreases n,
{
    if n > 0 {
        lemma_q4_dot_bound(w, blk, x, xo, (n - 1) as nat);
        let q = q4_weight(w, blk, n - 1);
        let xv = x[xo + n - 1];
        assert(-8 <= q <= 7);
        assert(-1024 <= q * xv <= 1024) by (nonlinear_arith)
            requires -8 <= q <= 7, -128 <= xv <= 127;
    }
}

/// `(a * s) >> 8` for a block dot product `a` and a scale `s`, computed exactly.
fn scaled_term(a: i32, s: i16) -> (r: i32)
    requires -32768 <= a <= 32768,
    ensures r as int == shr(a * s, 8),
{
    assert(-32768 * 32768 <= a * s <= 32768 * 32768) by (nonlinear_arith)
        requires -32768 <= a <= 32768, -32768 <= s <= 32767;
    let p: i64 = a as i64 * s as i64;
    assert((p >> 8u64) == p / 256) by (bit_vector);
    proof {
        vstd::arithmetic::power2::lemma2_to64();
    }
    (p >> 8u64) as i32
}

/// What a row adds to the output, from its (wrapped) row sum and its scale.
fn finish_row(sum: i32, s: i32) -> (r: i32)
    ensures r == shr(sum * s, 16) as i32,
{
    assert(-0x4000_0000_0000_0000 <= sum * s <= 0x4000_0000_0000_0000) by (nonlinear_arith)
        requires i32::MIN <= sum <= i32::MAX, i32::MIN <= s <= i32::MAX;
    let p: i64 = sum as i64 * s as i64;
    proof {
        lemma_i64_shr16(p);
    }
    (p >> 16u64) as i32
}


// ---------------------------------------------------------------------------
// Block dot products
// ---------------------------------------------------------------------------

/// Dot product of the 256 ternary weights of the block at byte `blk` of `w` with
/// `x[xo..xo + 256]`.
pub fn ternary_block_dot(w: &[u8], blk: usize, x: &[i8], xo: usize) -> (r: i32)
    requires
        blk + 64 <= w.len(),
        xo + 256 <= x.len(),
    ensures
        r as int == ternary_dot(w@, blk as int, x@, xo as int, 256),
{
    let mut sum: i32 = 0;
    for j in 0..32usize
        invariant
            blk + 64 <= w.len(),
            xo + 256 <= x.len(),
            sum as int == ternary_dot(w@, blk as int, x@, xo as int, (8 * j) as nat),
    {
        let pb: u8 = w[blk + j];
        let nb: u8 = w[blk + 32 + j];
        for t in 0..8u8
            invariant
                j < 32,
                blk + 64 <= w.len(),
                xo + 256 <= x.len(),
                pb == w@[blk + j],
                nb == w@[blk + 32 + j],
                sum as int == ternary_dot(w@, blk as int, x@, xo as int, (8 * j + t) as nat),
        {
            let k: usize = 8 * j + t as usize;
            proof {
                lemma_ternary_dot_bound(w@, blk as int, x@, xo as int, k as nat);
            }
            let xv: i32 = x[xo + k] as i32;
            proof {
                assert(k as int / 8 == j as int && k as int % 8 == t as int);
                lemma_bit_of_range(pb, t as int);
                lemma_bit_of_range(nb, t as int);
                assert(ternary_weight(w@, blk as int, k as int) == bit_of(pb, t as int) - bit_of(nb, t as int));
                assert(ternary_dot(w@, blk as int, x@, xo as int, (k + 1) as nat)
                    == ternary_dot(w@, blk as int, x@, xo as int, k as nat)
                    + ternary_weight(w@, blk as int, k as int) * xv);
            }
            if (pb >> t) & 1u8 != 0 {
                sum = sum + xv;
            }
            if (nb >> t) & 1u8 != 0 {
                sum = sum - xv;
            }
            assert(sum as int == ternary_dot(w@, blk as int, x@, xo as int, (k + 1) as nat)) by (nonlinear_arith)
                requires
                    sum as int == ternary_dot(w@, blk as int, x@, xo as int, k as nat)
                        + bit_of(pb, t as int) * xv - bit_of(nb, t as int) * xv,
                    ternary_dot(w@, blk as int, x@, xo as int, (k + 1) as nat)
                        == ternary_dot(w@, blk as int, x@, xo as int, k as nat)
                        + (bit_of(pb, t as int) - bit_of(nb, t as int)) * xv;
        }
    }
    sum
}

/// Dot product of the 32 weights of the Q4_0 block at byte `blk` of `w` with
/// `x[xo..xo + 32]`.
pub fn q4_block_dot(w: &[u8], blk: usize, x: &[i8], xo: usize) -> (r: i32)
    requires
        blk + 18 <= w.len(),
        xo + 32 <= x.len(),
    ensures
        r as int == q4_dot(w@, blk as int, x@, xo as int, 32),
{
    let mut block_sum: i32 = 0;
    for i in 0..16usize
        invariant
            blk + 18 <= w.len(),
            xo + 32 <= x.len(),
            block_sum as int == q4_dot(w@, blk as int, x@, xo as int, (2 * i) as nat),
    {
        proof {
            lemma_q4_dot_bound(w@, blk as int, x@, xo as int, (2 * i) as nat);
        }
        let q: u8 = w[blk + 2 + i];
        assert((q & 15u8) == q % 16 && (q >> 4u8) == q / 16) by (bit_vector);
        let q0: i32 = (q & 15u8) as i32 - 8;
        let q1: i32 = (q >> 4u8) as i32 - 8;
        let x0: i32 = x[xo + 2 * i] as i32;
        let x1: i32 = x[xo + 2 * i + 1] as i32;
        proof {
            assert((2 * i) as int / 2 == i && (2 * i) as int % 2 == 0);
            assert((2 * i + 1) as int / 2 == i && (2 * i + 1) as int % 2 == 1);
            assert(q4_weight(w@, blk as int, 2 * i as int) == q0);
            assert(q4_weight(w@, blk as int, 2 * i + 1) == q1);
            assert(-1024 <= q0 * x0 <= 1024) by (nonlinear_arith)
                requires -8 <= q0 <= 7, -128 <= x0 <= 127;
            assert(-1024 <= q1 * x1 <= 1024) by (nonlinear_arith)
                requires -8 <= q1 <= 7, -128 <= x1 <= 127;
            assert(q4_dot(w@, blk as int, x@, xo as int, (2 * i + 1) as nat)
                == q4_dot(w@, blk as int, x@, xo as int, (2 * i) as nat) + q0 * x0);
            assert(q4_dot(w@, blk as int, x@, xo as int, (2 * i + 2) as nat)
                == q4_dot(w@, blk as int, x@, xo as int, (2 * i + 1) as nat) + q1 * x1);
        }
        block_sum = block_sum + q0 * x0;
        block_sum = block_sum + q1 * x1;
    }
    block_sum
}

// ---------------------------------------------------------------------------
// Laws of the block layouts
// ---------------------------------------------------------------------------

/// Q4_0 nibble order: element `2 * i` of a block takes the low nibble of quant
/// byte `i`, element `2 * i + 1` its high nibble, each less 8.
pub proof fn lemma_q4_nibble_order(w: Seq<u8>, blk: int, i: int)
    requires
        0 <= i < 16,
    ensures
        q4_weight(w, blk, 2 * i) == (w[blk + 2 + i] & 0x0fu8) as int - 8,
        q4_weight(w, blk, 2 * i + 1) == (w[blk + 2 + i] >> 4u8) as int - 8,
{
    let b = w[blk + 2 + i];
    assert((b & 15u8) == b % 16 && (b >> 4u8) == b / 16) by (bit_vector);
    assert((2 * i) / 2 == i && (2 * i) % 2 == 0 && (2 * i + 1) / 2 == i && (2 * i + 1) % 2 == 1);
}

proof fn lemma_q4_single_byte_prefix(w: Seq<u8>, blk: int, x: Seq<i8>, xo: int, i: int, n: nat)
    requires
        0 <= i < 16,
        n <= 32,
        forall|k: int| 0 <= k < 16 && k != i ==> #[trigger] w[blk + 2 + k] == 0x88u8,
    ensures
        q4_dot(w, blk, x, xo, n) == (if 2 * i < n {
            ((w[blk + 2 + i] & 0x0fu8) as int - 8) * x[xo + 2 * i]
        } else {
            0
        }) + (if 2 * i + 1 < n {
            ((w[blk + 2 + i] >> 4u8) as int - 8) * x[xo + 2 * i + 1]
        } else {
            0
        }),
    decreases n,
{
    if n > 0 {
        lemma_q4_single_byte_prefix(w, blk, x, xo, i, (n - 1) as nat);
        lemma_q4_nibble_order(w, blk, i);
        let j = n - 1;
        let h = j / 2;
        if h != i {
            assert(0 <= h < 16);
            assert(w[blk + 2 + h] == 0x88u8);
            assert(q4_weight(w, blk, j) == 0);
        } else {
            assert(j == 2 * i || j == 2 * i + 1);
        }
    }
}

/// A Q4_0 block whose quant bytes are all `0x88` (every weight 0) except byte
/// `i`, which holds `b`, has dot product `((b & 15) - 8) * x[2i] + ((b >> 4) - 8) * x[2i + 1]`
/// with any activations `x`.
pub proof fn lemma_q4_single_byte_dot(w: Seq<u8>, blk: int, x: Seq<i8>, xo: int, i: int)
    requires
        0 <= i < 16,
        forall|k: int| 0 <= k < 16 && k != i ==> #[trigger] w[blk + 2 + k] == 0x88u8,
    ensures
        q4_dot(w, blk, x, xo, 32) == ((w[blk + 2 + i] & 0x0fu8) as int - 8) * x[xo + 2 * i] + ((w[blk + 2 + i]
            >> 4u8) as int - 8) * x[xo + 2 * i + 1],
{
    lemma_q4_single_byte_prefix(w, blk, x, xo, i, 32);
}

proof fn lemma_one_bit(s: u8, t: u8)
    requires
        s < 8,
        t < 8,
    ensures
        (((1u8 << s) >> t) & 1u8) == (if s == t { 1u8 } else { 0u8 }),
        ((0u8 >> t) & 1u8) == 0u8,
{
    assert((((1u8 << s) >> t) & 1u8) == (if s == t { 1u8 } else { 0u8 })) by (bit_vector)
        requires s < 8, t < 8;
    assert(((0u8 >> t) & 1u8) == 0u8) by (bit_vector);
}

/// The bit plane and position of ternary weight `k` of a block: bit `k % 8` of byte
/// `k / 8` of the plane (the positive plane first, the negative 32 bytes on).
pub open spec fn single_weight_block(w: Seq<u8>, blk: int, k: int, neg: bool) -> bool {
    forall|j: int|
        0 <= j < 64 ==> #[trigger] w[blk + j] == if j == (if neg { 32 + k / 8 } else { k / 8 }) {
            1u8 << ((k % 8) as u8)
        } else {
            0u8
        }
}

proof fn lemma_ternary_single_weight_prefix(w: Seq<u8>, blk: int, x: Seq<i8>, xo: int, k: int, neg: bool, n: nat)
    requires
        0 <= k < 256,
        n <= 256,
        single_weight_block(w, blk, k, neg),
    ensures
        ternary_dot(w, blk, x, xo, n) == if k < n {
            if neg { -x[xo + k] } else { x[xo + k] as int }
        } else {
            0
        },
    decreases n,
{
    if n > 0 {
        lemma_ternary_single_weight_prefix(w, blk, x, xo, k, neg, (n - 1) as nat);
        let j = n - 1;
        let jb = j / 8;
        let jt = (j % 8) as u8;
        let kt = (k % 8) as u8;
        assert(0 <= jb < 32);
        let sel = if neg { 32 + k / 8 } else { k / 8 };
        let pb = w[blk + jb];
        let nb = w[blk + (32 + jb)];
        assert(pb == if jb == sel { 1u8 << kt } else { 0u8 });
        assert(nb == if 32 + jb == sel { 1u8 << kt } else { 0u8 });
        lemma_one_bit(kt, jt);
        assert(jb == k / 8 && jt == kt <==> j == k) by {
            if jb == k / 8 && jt == kt {
                assert(j == 8 * jb + (j % 8) && k == 8 * (k / 8) + (k % 8));
            }
        }
        let wt = if j == k { if neg { -1int } else { 1int } } else { 0int };
        assert(bit_of(pb, j % 8) == ((pb >> jt) & 1u8) as int);
        assert(bit_of(nb, j % 8) == ((nb >> jt) & 1u8) as int);
        assert(ternary_weight(w, blk, j) == bit_of(pb, j % 8) - bit_of(nb, j % 8));
        assert(ternary_weight(w, blk, j) == wt);
        assert(ternary_dot(w, blk, x, xo, n) == ternary_dot(w, blk, x, xo, (n - 1) as nat) + wt * x[xo + j]);
    }
}

/// A ternary block whose bit planes hold a single set bit, for weight `k`, has dot
/// product `x[k]` when the bit is in the positive plane and `-x[k]` when it is in
/// the negative plane, with any activations `x`.
pub proof fn lemma_ternary_single_weight_dot(w: Seq<u8>, blk: int, x: Seq<i8>, xo: int, k: int, neg: bool)
    requires
        0 <= k < 256,
        single_weight_block(w, blk, k, neg),
    ensures
        ternary_dot(w, blk, x, xo, 256) == if neg { -x[xo + k] } else { x[xo + k] as int },
{
    lemma_ternary_single_weight_prefix(w, blk, x, xo, k, neg, 256);
}

/// Scales are stored little-endian: the low byte of the `i16`, then its high byte.
pub proof fn lemma_i16_at_little_endian(w: Seq<u8>, off: int, v: i16)
    requires
        w[off] == ((v as u16) & 0xffu16) as u8,
        w[off + 1] == ((v as u16) >> 8u16) as u8,
    ensures
        i16_at(w, off) == v,
{
    let u = v as u16;
    let lo = (u & 0xffu16) as u8;
    let hi = (u >> 8u16) as u8;
    assert(lo as u32 + 256 * (hi as u32) == u as u32) by (bit_vector)
        requires lo == (u & 0xffu16) as u8, hi == (u >> 8u16) as u8;
    assert((u as u32) >= 32768 <==> v < 0) by (bit_vector)
        requires u == v as u16;
    assert(v < 0 ==> (u as u32) as int == v as int + 65536) by (bit_vector)
        requires u == v as u16;
    assert(v >= 0 ==> (u as u32) as int == v as int) by (bit_vector)
        requires u == v as u16;
}

proof fn lemma_shr8_brackets(a: int)
    ensures
        256 * shr(a, 8) <= a < 256 * shr(a, 8) + 256,
{
    vstd::arithmetic::power2::lemma2_to64();
    assert(shr(a, 8) == a / 256);
    vstd::arithmetic::div_mod::lemma_fundamental_div_mod(a, 256);
    vstd::arithmetic::div_mod::lemma_mod_bound(a, 256);
}

/// A Q4_0 block contributes its dot product times its scale (the `i16` at the
/// block's start) divided by 256, rounded down; a 1.58-bit block likewise, with
/// the scale of its superblock slot.
pub proof fn lemma_block_terms_round_down(w: Seq<u8>, blk: int, sb: int, sub: int, x: Seq<i8>, xo: int)
    ensures
        256 * q4_term(w, blk, x, xo) <= q4_dot(w, blk, x, xo, 32) * i16_at(w, blk) < 256 * q4_term(
            w,
            blk,
            x,
            xo,
        ) + 256,
        256 * bitnet_term(w, sb, sub, x, xo) <= ternary_dot(w, sb + 64 + 64 * sub, x, xo + 256 * sub, 256)
            * i16_at(w, sb + 2 * sub) < 256 * bitnet_term(w, sb, sub, x, xo) + 256,
{
    lemma_shr8_brackets(q4_dot(w, blk, x, xo, 32) * i16_at(w, blk));
    lemma_shr8_brackets(ternary_dot(w, sb + 64 + 64 * sub, x, xo + 256 * sub, 256) * i16_at(w, sb + 2 * sub));
}

proof fn lemma_unit_term_bound(qt: QuantType, w: Seq<u8>, row: int, bpr: int, i: int, x: Seq<i8>, xo: int)
    ensures
        -0x40_0000 <= unit_term(qt, w, row, bpr, i, x, xo) <= 0x40_0000,
{
    let (d, sc) = match qt {
        QuantType::Bit1_58 => {
            let sb = (row * bpr + i / 8) * 576;
            let sub = i % 8;
            let xo2 = xo + (i / 8) * 2048;
            lemma_ternary_dot_bound(w, sb + 64 + 64 * sub, x, xo2 + 256 * sub, 256);
            lemma_block_terms_round_down(w, 0, sb, sub, x, xo2);
            (ternary_dot(w, sb + 64 + 64 * sub, x, xo2 + 256 * sub, 256), i16_at(w, sb + 2 * sub))
        },
        QuantType::Q4_0 => {
            let blk = (row * bpr * 8 + i) * 18;
            lemma_q4_dot_bound(w, blk, x, xo + i * 32, 32);
            lemma_block_terms_round_down(w, blk, 0, 0, x, xo + i * 32);
            (q4_dot(w, blk, x, xo + i * 32, 32), i16_at(w, blk))
        },
    };
    assert(-32768 <= sc <= 32767);
    assert(-0x4000_0000 <= d * sc <= 0x4000_0000) by (nonlinear_arith)
        requires -32768 <= d <= 32768, -32768 <= sc <= 32767;
}

proof fn lemma_row_sum_single_unit_prefix(
    qt: QuantType,
    w: Seq<u8>,
    row: int,
    bpr: int,
    x: Seq<i8>,
    xo: int,
    u: int,
    n: nat,
)
    requires
        0 <= u,
        forall|i: int| 0 <= i < n && i != u ==> #[trigger] unit_term(qt, w, row, bpr, i, x, xo) == 0,
    ensures
        row_sum(qt, w, row, bpr, x, xo, n) == if u < n { unit_term(qt, w, row, bpr, u, x, xo) } else { 0 },
    decreases n,
{
    if n > 0 {
        lemma_row_sum_single_unit_prefix(qt, w, row, bpr, x, xo, u, (n - 1) as nat);
        lemma_unit_term_bound(qt, w, row, bpr, n - 1, x, xo);
        lemma_unit_term_bound(qt, w, row, bpr, u, x, xo);
    }
}

/// A row's sum takes in each of its `8 * bpr` units exactly once: when every unit
/// but `u` contributes 0, the row sum is unit `u`'s contribution.
pub proof fn lemma_row_sum_single_unit(
    qt: QuantType,
    w: Seq<u8>,
    row: int,
    bpr: int,
    x: Seq<i8>,
    xo: int,
    u: int,
)
    requires
        0 <= u < 8 * bpr,
        forall|i: int| 0 <= i < 8 * bpr && i != u ==> #[trigger] unit_term(qt, w, row, bpr, i, x, xo) == 0,
    ensures
        row_sum(qt, w, row, bpr, x, xo, (8 * bpr) as nat) == unit_term(qt, w, row, bpr, u, x, xo),
{
    lemma_row_sum_single_unit_prefix(qt, w, row, bpr, x, xo, u, (8 * bpr) as nat);
}

/// Where a row's units sit: Q4_0 unit `i` is the `i`-th 18-byte block of the row's
/// bytes, over the activations from `xo + 32 * i`; 1.58-bit unit `i` is block
/// `i % 8` of the row's 576-byte superblock `i / 8`, over the activations from
/// `xo + 2048 * (i / 8)`.
pub proof fn lemma_unit_layout(w: Seq<u8>, row: int, bpr: int, i: int, x: Seq<i8>, xo: int)
    requires
        0 <= i < 8 * bpr,
    ensures
        unit_term(QuantType::Q4_0, w, row, bpr, i, x, xo) == q4_term(
            w,
            row * row_bytes(QuantType::Q4_0, bpr) + 18 * i,
            x,
            xo + 32 * i,
        ),
        unit_term(QuantType::Bit1_58, w, row, bpr, i, x, xo) == bitnet_term(
            w,
            row * row_bytes(QuantType::Bit1_58, bpr) + 576 * (i / 8),
            i % 8,
            x,
            xo + 2048 * (i / 8),
        ),
{
    assert((row * bpr * 8 + i) * 18 == row * (bpr * 144) + 18 * i) by (nonlinear_arith);
    assert((row * bpr + i / 8) * 576 == row * (bpr * 576) + 576 * (i / 8)) by (nonlinear_arith);
}

/// A row's output is its row sum times its 16.16 fixed-point scale, divided by
/// 65536 rounding down, when that fits in an `i32`.
pub proof fn lemma_row_output_scaled(qt: QuantType, w: Seq<u8>, s: i32, row: int, bpr: int, x: Seq<i8>, xo: int)
    requires
        i32::MIN * 65536 <= row_sum(qt, w, row, bpr, x, xo, (bpr * 8) as nat) * s < (i32::MAX + 1) * 65536,
    ensures
        65536 * row_output(qt, w, s, row, bpr, x, xo) <= row_sum(qt, w, row, bpr, x, xo, (bpr * 8) as nat) * s
            < 65536 * row_output(qt, w, s, row, bpr, x, xo) + 65536,
{
    let a = row_sum(qt, w, row, bpr, x, xo, (bpr * 8) as nat) * s;
    vstd::arithmetic::power2::lemma2_to64();
    assert(shr(a, 16) == a / 65536);
    vstd::arithmetic::div_mod::lemma_fundamental_div_mod(a, 65536);
    vstd::arithmetic::div_mod::lemma_mod_bound(a, 65536);
    assert(i32::MIN <= a / 65536 <= i32::MAX);
}

// ---------------------------------------------------------------------------
// The compute context and the CPU row kernels
// ---------------------------------------------------------------------------

/// The runtime context for the vec101 engine: the weight, activation and scale
/// streams of a (batched) matrix-vector product, with its dimensions.
///
/// The weight stream holds, row after row, `blocks_per_row` superblocks of 576
/// bytes per row for [`QuantType::Bit1_58`], or `8 * blocks_per_row` Q4_0 blocks of
/// 18 bytes per row for [`QuantType::Q4_0`]. Batch `b` of the activations starts at
/// `x_stream[b * blocks_per_row * 2048]`; `s_stream` holds one scale per row.
#[allow(non_camel_case_types)]
pub struct vec101_context<'a> {
    /// Quantization type of the current stream
    pub quant_type: QuantType,
    /// SuperBlocks stream or Q4_0 blocks stream, as bytes
    pub w_stream: &'a [u8],
    /// Continuous activation values stream.
    pub x_stream: &'a [i8],
    /// Quantization scaling factor stream per row.
    pub s_stream: &'a [i32],
    /// Paged Attention KV blocks.
    pub kv_blocks: &'a [&'a [i32]],
    /// Number of valid blocks in the kv_blocks array.
    pub num_blocks: usize,
    /// Number of tokens per block (e.g. 16 or 64).
    pub block_size: usize,
    /// Number of tokens processed simultaneously (GEMM Batch Dimension)
    pub batch_size: usize,
    /// Number of rows in the weight matrix
    pub num_rows: usize,
    /// Number of SuperBlocks per row
    pub blocks_per_row: usize,
    /// Number of parallel threads to use
    pub num_threads: usize,
    /// Tree attention mask for speculative decoding.
    pub tree_mask: &'a [u32],
    /// Number of entries of the tree mask.
    pub tree_size: usize,
    /// Opaque handle of a hardware accelerator (0 when none).
    pub hardware_handle: usize,
}

/// Bytes of weights per row of a weight stream.
pub open spec fn row_bytes(qt: QuantType, bpr: int) -> int {
    match qt {
        QuantType::Bit1_58 => bpr * 576,
        QuantType::Q4_0 => bpr * 144,
    }
}

impl<'a> vec101_context<'a> {
    /// The streams are large enough for the context's dimensions.
    pub open spec fn streams_fit(&self) -> bool {
        &&& self.num_rows * row_bytes(self.quant_type, self.blocks_per_row as int)
            <= self.w_stream.len()
        &&& self.rows_in_batch() * (self.blocks_per_row * 2048) <= self.x_stream.len()
        &&& self.num_rows <= self.s_stream.len()
    }

    /// Number of activation vectors the CPU backend processes: `batch_size`, or one
    /// when it is 0.
    pub open spec fn rows_in_batch(&self) -> int {
        if self.batch_size == 0 { 1 } else { self.batch_size as int }
    }

    /// What row `row` adds to output `b * num_rows + row`.
    pub open spec fn row_output(&self, row: int, b: int) -> i32 {
        row_output(
            self.quant_type,
            self.w_stream@,
            self.s_stream@[row],
            row,
            self.blocks_per_row as int,
            self.x_stream@,
            b * self.blocks_per_row * 2048,
        )
    }
}

proof fn lemma_mul_le(a: int, b: int, c: int, d: int)
    requires 0 <= a <= c, 0 <= b <= d,
    ensures a * b <= c * d,
{
    assert(a * b <= c * d) by (nonlinear_arith)
        requires 0 <= a <= c, 0 <= b <= d;
}

/// Processes row `row` of a single activation vector (GEMV): adds the row's output
/// to `out[row]`, wrapping around in `i32` on overflow.
pub fn process_row_gemv(row: usize, ctx: &vec101_context, out: &mut [i32])
    requires
        row < ctx.num_rows,
        ctx.streams_fit(),
        row < old(out).len(),
    ensures
        final(out).len() == old(out).len(),
        final(out)[row as int] == wrapping_add(old(out)[row as int], ctx.row_output(row as int, 0)),
        forall|i: int| 0 <= i < old(out).len() && i != row ==> final(out)[i] == old(out)[i],
{
    let bpr = ctx.blocks_per_row;
    let w = ctx.w_stream;
    let x = ctx.x_stream;
    let qt = ctx.quant_type;
    let scale = ctx.s_stream[row];
    let mut final_sum: i32 = 0;
    proof {
        lemma_mul_le(1, bpr as int * 2048, ctx.rows_in_batch(), bpr as int * 2048);
        lemma_mul_le(row as int + 1, row_bytes(qt, bpr as int), ctx.num_rows as int, row_bytes(qt, bpr as int));
    }
    for col in 0..bpr
        invariant
            bpr == ctx.blocks_per_row,
            w == ctx.w_stream,
            x == ctx.x_stream,
            qt == ctx.quant_type,
            row < ctx.num_rows,
            ctx.streams_fit(),
            bpr * 2048 <= x.len(),
            (row + 1) * row_bytes(qt, bpr as int) <= w.len(),
            final_sum == row_sum(qt, w@, row as int, bpr as int, x@, 0, (8 * col) as nat),
    {
        for sub_blk in 0..8usize
            invariant
                bpr == ctx.blocks_per_row,
                w == ctx.w_stream,
                x == ctx.x_stream,
                qt == ctx.quant_type,
                col < bpr,
                bpr * 2048 <= x.len(),
                (row + 1) * row_bytes(qt, bpr as int) <= w.len(),
                final_sum == row_sum(qt, w@, row as int, bpr as int, x@, 0, (8 * col + sub_blk) as nat),
        {
            let i: usize = 8 * col + sub_blk;
            assert(i as int / 8 == col as int && i as int % 8 == sub_blk as int);
            let term: i32 = match qt {
                QuantType::Bit1_58 => {
                    assert((row * bpr + col) * 576 + 576 <= (row + 1) * (bpr * 576)
                        && 0 <= row * bpr <= row * bpr + col) by (nonlinear_arith)
                        requires col < bpr;
                    let sb: usize = (row * bpr + col) * SUPERBLOCK_BYTES;
                    let micro_scale: i16 = read_i16(w, sb + 2 * sub_blk);
                    let xo: usize = col * 2048 + sub_blk * 256;
                    assert(xo + 256 <= bpr * 2048) by (nonlinear_arith)
                        requires xo == col * 2048 + sub_blk * 256, col < bpr, sub_blk < 8;
                    let micro_sum = ternary_block_dot(w, sb + 64 + 64 * sub_blk, x, xo);
                    proof {
                        lemma_ternary_dot_bound(w@, sb + 64 + 64 * sub_blk, x@, xo as int, 256);
                    }
                    scaled_term(micro_sum, micro_scale)
                },
                QuantType::Q4_0 => {
                    assert((row * bpr * 8 + i) * 18 + 18 <= (row + 1) * (bpr * 144)
                        && 0 <= row * bpr <= row * bpr * 8 <= row * bpr * 8 + i) by (nonlinear_arith)
                        requires i < 8 * bpr;
                    let blk: usize = (row * bpr * 8 + i) * Q4_BLOCK_BYTES;
                    let d: i16 = read_i16(w, blk);
                    let xo: usize = i * 32;
                    assert(xo + 32 <= bpr * 2048) by (nonlinear_arith)
                        requires xo == i * 32, i < 8 * bpr;
                    let block_sum = q4_block_dot(w, blk, x, xo);
                    proof {
                        lemma_q4_dot_bound(w@, blk as int, x@, xo as int, 32);
                    }
                    scaled_term(block_sum, d)
                },
            };
            assert(term as int == unit_term(qt, w@, row as int, bpr as int, i as int, x@, 0));
            final_sum = final_sum.wrapping_add(term);
        }
    }
    let delta = finish_row(final_sum, scale);
    out[row] = out[row].wrapping_add(delta);
}


// ---------------------------------------------------------------------------
// Batched rows (GEMM) over transposed activations
// ---------------------------------------------------------------------------

/// Entry `(f, b)` of the transposed activations: feature `f` of batch `b`.
pub open spec fn xt_at(x_t: Seq<i8>, padded_batch: int, f: int, b: int) -> i8 {
    x_t[f * padded_batch + b]
}

/// `x_t` holds the activations `x` of `batch` vectors of `in_features` features,
/// feature-major: feature `f` of batch `b` at `x_t[f * padded_batch + b]`.
pub open spec fn is_transposed(
    x_t: Seq<i8>,
    x: Seq<i8>,
    in_features: int,
    padded_batch: int,
    batch: int,
) -> bool {
    &&& batch <= padded_batch
    &&& x_t.len() == in_features * padded_batch
    &&& batch * in_features <= x.len()
    &&& forall|f: int, b: int|
        0 <= f < in_features && 0 <= b < batch ==> #[trigger] xt_at(x_t, padded_batch, f, b) == x[b
            * in_features + f]
}

proof fn lemma_xt_index(f: int, b: int, in_f: int, pb: int, batch: int)
    requires 0 <= f < in_f, 0 <= b < batch <= pb,
    ensures
        0 <= f * pb <= f * pb + b < in_f * pb,
        0 <= b * in_f <= b * in_f + f < batch * in_f,
{
    assert(f * pb + b < in_f * pb) by (nonlinear_arith)
        requires 0 <= f < in_f, 0 <= b < pb;
    assert(0 <= f * pb) by (nonlinear_arith)
        requires 0 <= f, 0 <= pb;
    assert(b * in_f + f < batch * in_f) by (nonlinear_arith)
        requires 0 <= f < in_f, 0 <= b < batch;
    assert(0 <= b * in_f) by (nonlinear_arith)
        requires 0 <= b, 0 <= in_f;
}

/// Sets `row_sums[b]`, for each batch `b`, to the dot product of the ternary block at
/// byte `blk` of `w` with features `f0..f0 + 256` of batch `b`.
fn gemm_ternary_block(
    w: &[u8],
    blk: usize,
    x_t: &[i8],
    padded_batch: usize,
    in_f: usize,
    f0: usize,
    batch: usize,
    row_sums: &mut [i32],
    Ghost(xs): Ghost<Seq<i8>>,
)
    requires
        blk + 64 <= w.len(),
        f0 + 256 <= in_f,
        batch <= old(row_sums).len(),
        is_transposed(x_t@, xs, in_f as int, padded_batch as int, batch as int),
    ensures
        final(row_sums).len() == old(row_sums).len(),
        forall|b: int|
            0 <= b < batch ==> final(row_sums)[b] == ternary_dot(
                w@,
                blk as int,
                xs,
                b * in_f + f0,
                256,
            ),
{
    for b in 0..batch
        invariant
            batch <= row_sums.len(),
            row_sums.len() == old(row_sums).len(),
            forall|c: int| 0 <= c < b ==> row_sums[c] == 0,
    {
        row_sums[b] = 0;
    }
    for j in 0..32usize
        invariant
            blk + 64 <= w.len(),
            f0 + 256 <= in_f,
            batch <= row_sums.len(),
            row_sums.len() == old(row_sums).len(),
            is_transposed(x_t@, xs, in_f as int, padded_batch as int, batch as int),
            forall|c: int|
                0 <= c < batch ==> row_sums[c] == ternary_dot(
                    w@,
                    blk as int,
                    xs,
                    c * in_f + f0,
                    (8 * j) as nat,
                ),
    {
        let pb: u8 = w[blk + j];
        let nb: u8 = w[blk + 32 + j];
        for t in 0..8u8
            invariant
                j < 32,
                blk + 64 <= w.len(),
                f0 + 256 <= in_f,
                batch <= row_sums.len(),
                row_sums.len() == old(row_sums).len(),
                pb == w@[blk + j],
                nb == w@[blk + 32 + j],
                is_transposed(x_t@, xs, in_f as int, padded_batch as int, batch as int),
                forall|c: int|
                    0 <= c < batch ==> row_sums[c] == ternary_dot(
                        w@,
                        blk as int,
                        xs,
                        c * in_f + f0,
                        (8 * j + t) as nat,
                    ),
        {
            let k: usize = 8 * j + t as usize;
            let f: usize = f0 + k;
            proof {
                assert(k as int / 8 == j as int && k as int % 8 == t as int);
                lemma_bit_of_range(pb, t as int);
                lemma_bit_of_range(nb, t as int);
            }
            let pos: i32 = ((pb >> t) & 1u8) as i32;
            let neg: i32 = ((nb >> t) & 1u8) as i32;
            let wt: i32 = pos - neg;
            assert(wt == ternary_weight(w@, blk as int, k as int));
            for b in 0..batch
                invariant
                    j < 32,
                    k == 8 * j + t,
                    t < 8,
                    f == f0 + k,
                    f0 + 256 <= in_f,
                    batch <= row_sums.len(),
                    row_sums.len() == old(row_sums).len(),
                    is_transposed(x_t@, xs, in_f as int, padded_batch as int, batch as int),
                    wt == ternary_weight(w@, blk as int, k as int),
                    -1 <= wt <= 1,
                    forall|c: int|
                        0 <= c < b ==> row_sums[c] == ternary_dot(
                            w@,
                            blk as int,
                            xs,
                            c * in_f + f0,
                            (k + 1) as nat,
                        ),
                    forall|c: int|
                        b <= c < batch ==> row_sums[c] == ternary_dot(
                            w@,
                            blk as int,
                            xs,
                            c * in_f + f0,
                            k as nat,
                        ),
            {
                proof {
                    lemma_xt_index(f as int, b as int, in_f as int, padded_batch as int, batch as int);
                    assert(x_t.len() == in_f * padded_batch);
                    assert(xt_at(x_t@, padded_batch as int, f as int, b as int) == xs[b * in_f + f]);
                    lemma_ternary_dot_bound(w@, blk as int, xs, b * in_f + f0, k as nat);
                }
                let xv: i32 = x_t[f * padded_batch + b] as i32;
                assert(-128 <= wt * xv <= 128) by (nonlinear_arith)
                    requires -1 <= wt <= 1, -128 <= xv <= 127;
                row_sums[b] = row_sums[b] + wt * xv;
                assert(xs[b * in_f + f0 + k] == xs[b * in_f + f]);
            }
        }
    }
}

/// Sets `row_sums[b]`, for each batch `b`, to the dot product of the Q4_0 block at
/// byte `blk` of `w` with features `f0..f0 + 32` of batch `b`.
fn gemm_q4_block(
    w: &[u8],
    blk: usize,
    x_t: &[i8],
    padded_batch: usize,
    in_f: usize,
    f0: usize,
    batch: usize,
    row_sums: &mut [i32],
    Ghost(xs): Ghost<Seq<i8>>,
)
    requires
        blk + 18 <= w.len(),
        f0 + 32 <= in_f,
        batch <= old(row_sums).len(),
        is_transposed(x_t@, xs, in_f as int, padded_batch as int, batch as int),
    ensures
        final(row_sums).len() == old(row_sums).len(),
        forall|b: int|
            0 <= b < batch ==> final(row_sums)[b] == q4_dot(w@, blk as int, xs, b * in_f + f0, 32),
{
    for b in 0..batch
        invariant
            batch <= row_sums.len(),
            row_sums.len() == old(row_sums).len(),
            forall|c: int| 0 <= c < b ==> row_sums[c] == 0,
    {
        row_sums[b] = 0;
    }
    for k in 0..32usize
        invariant
            blk + 18 <= w.len(),
            f0 + 32 <= in_f,
            batch <= row_sums.len(),
            row_sums.len() == old(row_sums).len(),
            is_transposed(x_t@, xs, in_f as int, padded_batch as int, batch as int),
            forall|c: int|
                0 <= c < batch ==> row_sums[c] == q4_dot(w@, blk as int, xs, c * in_f + f0, k as nat),
    {
        let q: u8 = w[blk + 2 + k / 2];
        assert((q & 15u8) == q % 16 && (q >> 4u8) == q / 16) by (bit_vector);
        let wt: i32 = if k % 2 == 0 { (q & 15u8) as i32 - 8 } else { (q >> 4u8) as i32 - 8 };
        assert(wt == q4_weight(w@, blk as int, k as int));
        let f: usize = f0 + k;
        for b in 0..batch
            invariant
                k < 32,
                f == f0 + k,
                f0 + 32 <= in_f,
                batch <= row_sums.len(),
                row_sums.len() == old(row_sums).len(),
                is_transposed(x_t@, xs, in_f as int, padded_batch as int, batch as int),
                wt == q4_weight(w@, blk as int, k as int),
                -8 <= wt <= 7,
                forall|c: int|
                    0 <= c < b ==> row_sums[c] == q4_dot(w@, blk as int, xs, c * in_f + f0, (k + 1) as nat),
                forall|c: int|
                    b <= c < batch ==> row_sums[c] == q4_dot(w@, blk as int, xs, c * in_f + f0, k as nat),
        {
            proof {
                lemma_xt_index(f as int, b as int, in_f as int, padded_batch as int, batch as int);
                    assert(x_t.len() == in_f * padded_batch);
                assert(xt_at(x_t@, padded_batch as int, f as int, b as int) == xs[b * in_f + f]);
                lemma_q4_dot_bound(w@, blk as int, xs, b * in_f + f0, k as nat);
            }
            let xv: i32 = x_t[f * padded_batch + b] as i32;
            assert(-1024 <= wt * xv <= 1024) by (nonlinear_arith)
                requires -8 <= wt <= 7, -128 <= xv <= 127;
            row_sums[b] = row_sums[b] + wt * xv;
            assert(xs[b * in_f + f0 + k] == xs[b * in_f + f]);
        }
    }
}


/// Processes row `row` for all `batch_size` activation vectors (GEMM), reading the
/// activations from their transposed copy `x_t`: adds the row's output for batch
/// `b` to `out[b * num_rows + row]`, wrapping around in `i32` on overflow. `row_sums` is
/// scratch space of at least `batch_size` entries.
pub fn process_row_gemm(
    row: usize,
    ctx: &vec101_context,
    x_t: &[i8],
    padded_batch: usize,
    row_sums: &mut [i32],
    out: &mut [i32],
)
    requires
        row < ctx.num_rows,
        ctx.streams_fit(),
        is_transposed(
            x_t@,
            ctx.x_stream@,
            ctx.blocks_per_row * 2048,
            padded_batch as int,
            ctx.batch_size as int,
        ),
        ctx.batch_size >= 1,
        ctx.batch_size <= old(row_sums).len(),
        ctx.batch_size * ctx.num_rows <= old(out).len(),
    ensures
        final(out).len() == old(out).len(),
        final(row_sums).len() == old(row_sums).len(),
        forall|b: int|
            0 <= b < ctx.batch_size ==> final(out)[b * ctx.num_rows + row] == wrapping_add(
                old(out)[b * ctx.num_rows + row],
                ctx.row_output(row as int, b),
            ),
        forall|i: int|
            0 <= i < old(out).len() && (i % ctx.num_rows as int != row || i >= ctx.batch_size
                * ctx.num_rows) ==> final(out)[i] == old(out)[i],
{
    let bpr = ctx.blocks_per_row;
    let batch = ctx.batch_size;
    let nr = ctx.num_rows;
    let w = ctx.w_stream;
    let qt = ctx.quant_type;
    proof {
        lemma_mul_le(1, bpr as int * 2048, ctx.rows_in_batch(), bpr as int * 2048);
    }
    let in_f: usize = bpr * 2048;
    let scale = ctx.s_stream[row];
    let ghost xs = ctx.x_stream@;
    let mut row_sums_int: Vec<i32> = Vec::new();
    for b in 0..batch
        invariant
            row_sums_int.len() == b,
            forall|c: int| 0 <= c < b ==> row_sums_int[c] == 0,
    {
        row_sums_int.push(0);
    }
    proof {
        lemma_mul_le(row as int + 1, row_bytes(qt, bpr as int), nr as int, row_bytes(qt, bpr as int));
    }
    for col in 0..bpr
        invariant
            bpr == ctx.blocks_per_row,
            batch == ctx.batch_size,
            nr == ctx.num_rows,
            w == ctx.w_stream,
            qt == ctx.quant_type,
            xs == ctx.x_stream@,
            in_f == bpr * 2048,
            row < nr,
            ctx.streams_fit(),
            (row + 1) * row_bytes(qt, bpr as int) <= w.len(),
            is_transposed(x_t@, xs, in_f as int, padded_batch as int, batch as int),
            batch <= row_sums.len(),
            row_sums.len() == old(row_sums).len(),
            row_sums_int.len() == batch,
            forall|c: int|
                0 <= c < batch ==> row_sums_int[c] == row_sum(
                    qt,
                    w@,
                    row as int,
                    bpr as int,
                    xs,
                    c * in_f,
                    (8 * col) as nat,
                ),
    {
        for sub_blk in 0..8usize
            invariant
                bpr == ctx.blocks_per_row,
                batch == ctx.batch_size,
                w == ctx.w_stream,
                qt == ctx.quant_type,
                xs == ctx.x_stream@,
                in_f == bpr * 2048,
                col < bpr,
                (row + 1) * row_bytes(qt, bpr as int) <= w.len(),
                is_transposed(x_t@, xs, in_f as int, padded_batch as int, batch as int),
                batch <= row_sums.len(),
                row_sums.len() == old(row_sums).len(),
                row_sums_int.len() == batch,
                forall|c: int|
                    0 <= c < batch ==> row_sums_int[c] == row_sum(
                        qt,
                        w@,
                        row as int,
                        bpr as int,
                        xs,
                        c * in_f,
                        (8 * col + sub_blk) as nat,
                    ),
        {
            let i: usize = 8 * col + sub_blk;
            assert(i as int / 8 == col as int && i as int % 8 == sub_blk as int);
            let block_scale: i16 = match qt {
                QuantType::Bit1_58 => {
                    assert((row * bpr + col) * 576 + 576 <= (row + 1) * (bpr * 576)
                        && 0 <= row * bpr <= row * bpr + col) by (nonlinear_arith)
                        requires col < bpr;
                    let sb: usize = (row * bpr + col) * SUPERBLOCK_BYTES;
                    let f0: usize = col * 2048 + sub_blk * 256;
                    assert(f0 + 256 <= in_f) by (nonlinear_arith)
                        requires f0 == col * 2048 + sub_blk * 256, col < bpr, sub_blk < 8, in_f == bpr * 2048;
                    gemm_ternary_block(w, sb + 64 + 64 * sub_blk, x_t, padded_batch, in_f, f0, batch, row_sums, Ghost(xs));
                    read_i16(w, sb + 2 * sub_blk)
                },
                QuantType::Q4_0 => {
                    assert((row * bpr * 8 + i) * 18 + 18 <= (row + 1) * (bpr * 144)
                        && 0 <= row * bpr <= row * bpr * 8 <= row * bpr * 8 + i) by (nonlinear_arith)
                        requires i < 8 * bpr;
                    let blk: usize = (row * bpr * 8 + i) * Q4_BLOCK_BYTES;
                    let f0: usize = i * 32;
                    assert(f0 + 32 <= in_f) by (nonlinear_arith)
                        requires f0 == i * 32, i < 8 * bpr, in_f == bpr * 2048;
                    gemm_q4_block(w, blk, x_t, padded_batch, in_f, f0, batch, row_sums, Ghost(xs));
                    read_i16(w, blk)
                },
            };
            let ghost old_int = row_sums_int@;
            for b in 0..batch
                invariant
                    batch == ctx.batch_size,
                    bpr == ctx.blocks_per_row,
                    w == ctx.w_stream,
                    qt == ctx.quant_type,
                    xs == ctx.x_stream@,
                    in_f == bpr * 2048,
                    i == 8 * col + sub_blk,
                    col < bpr,
                    sub_blk < 8,
                    i as int / 8 == col as int && i as int % 8 == sub_blk as int,
                    batch <= row_sums.len(),
                    row_sums_int.len() == batch,
                    old_int.len() == batch,
                    qt == QuantType::Bit1_58 ==> block_scale as int == i16_at(
                        w@,
                        (row * bpr + col) * 576 + 2 * sub_blk,
                    ),
                    qt == QuantType::Q4_0 ==> block_scale as int == i16_at(w@, (row * bpr * 8 + i) * 18),
                    forall|c: int|
                        0 <= c < batch ==> row_sums[c] == (match qt {
                            QuantType::Bit1_58 => ternary_dot(
                                w@,
                                (row * bpr + col) * 576 + 64 + 64 * sub_blk,
                                xs,
                                c * in_f + (col * 2048 + sub_blk * 256),
                                256,
                            ),
                            QuantType::Q4_0 => q4_dot(
                                w@,
                                (row * bpr * 8 + i) * 18,
                                xs,
                                c * in_f + i * 32,
                                32,
                            ),
                        }),
                    forall|c: int|
                        0 <= c < batch ==> old_int[c] == row_sum(
                            qt,
                            w@,
                            row as int,
                            bpr as int,
                            xs,
                            c * in_f,
                            i as nat,
                        ),
                    forall|c: int| 0 <= c < b ==> row_sums_int[c] == row_sum(
                        qt,
                        w@,
                        row as int,
                        bpr as int,
                        xs,
                        c * in_f,
                        (i + 1) as nat,
                    ),
                    forall|c: int| b <= c < batch ==> row_sums_int[c] == old_int[c],
            {
                proof {
                    match qt {
                        QuantType::Bit1_58 => {
                            lemma_ternary_dot_bound(
                                w@,
                                (row * bpr + col) * 576 + 64 + 64 * sub_blk,
                                xs,
                                b * in_f + (col * 2048 + sub_blk * 256),
                                256,
                            );
                        },
                        QuantType::Q4_0 => {
                            lemma_q4_dot_bound(w@, (row * bpr * 8 + i) * 18, xs, b * in_f + i * 32, 32);
                        },
                    }
                }
                let term = scaled_term(row_sums[b], block_scale);
                assert(term as int == unit_term(qt, w@, row as int, bpr as int, i as int, xs, b * in_f));
                let ghost before = row_sums_int@;
                let cur = row_sums_int[b];
                assert(cur == old_int[b as int]);
                assert(cur == row_sum(qt, w@, row as int, bpr as int, xs, b * in_f, i as nat));
                assert(term == unit_term(qt, w@, row as int, bpr as int, i as int, xs, b * in_f) as i32);
                let nv = cur.wrapping_add(term);
                assert(nv == wrapping_add(cur, term));
                row_sums_int.set(b, nv);
                assert(row_sum(qt, w@, row as int, bpr as int, xs, b * in_f, (i + 1) as nat)
                    == wrapping_add(
                        row_sum(qt, w@, row as int, bpr as int, xs, b * in_f, i as nat),
                        unit_term(qt, w@, row as int, bpr as int, i as int, xs, b * in_f) as i32,
                    ));
                assert(row_sums_int[b as int] == row_sum(qt, w@, row as int, bpr as int, xs, b * in_f, (i + 1) as nat));
            }
        }
    }
    for b in 0..batch
        invariant
            batch == ctx.batch_size,
            nr == ctx.num_rows,
            bpr == ctx.blocks_per_row,
            in_f == bpr * 2048,
            row < nr,
            xs == ctx.x_stream@,
            w == ctx.w_stream,
            qt == ctx.quant_type,
            scale == ctx.s_stream@[row as int],
            batch * nr <= old(out).len(),
            out.len() == old(out).len(),
            row_sums_int.len() == batch,
            forall|c: int|
                0 <= c < batch ==> row_sums_int[c] == row_sum(
                    qt,
                    w@,
                    row as int,
                    bpr as int,
                    xs,
                    c * in_f,
                    (8 * bpr) as nat,
                ),
            forall|c: int|
                0 <= c < b ==> out[c * nr + row] == wrapping_add(
                    old(out)[c * nr + row],
                    ctx.row_output(row as int, c),
                ),
            forall|i: int|
                0 <= i < old(out).len() && (i % nr as int != row || i >= b * nr) ==> out[i]
                    == old(out)[i],
    {
        assert(b * nr + row < batch * nr && 0 <= b * nr && b * nr + row < (b + 1) * nr) by (nonlinear_arith)
            requires b < batch, row < nr;
        assert((b * nr + row) % nr as int == row) by {
            vstd::arithmetic::div_mod::lemma_fundamental_div_mod_converse(
                (b * nr + row) as int, nr as int, b as int, row as int);
        }
        assert(b * in_f == b * bpr * 2048) by (nonlinear_arith)
            requires in_f == bpr * 2048;
        let idx: usize = b * nr + row;
        let delta = finish_row(row_sums_int[b], scale);
        let ghost prev = out@;
        out[idx] = out[idx].wrapping_add(delta);
        assert forall|c: int| 0 <= c < b + 1 implies #[trigger] out[c * nr + row] == wrapping_add(
            old(out)[c * nr + row],
            ctx.row_output(row as int, c),
        ) by {
            if c < b {
                assert(c * nr + row < b * nr) by (nonlinear_arith)
                    requires c < b, 0 <= c, row < nr;
            }
        }
    }
}


proof fn lemma_xt_distinct(f1: int, b1: int, f2: int, b2: int, pb: int)
    requires 0 <= b1 < pb, 0 <= b2 < pb, 0 <= f1, 0 <= f2, f1 * pb + b1 == f2 * pb + b2,
    ensures f1 == f2 && b1 == b2,
{
    vstd::arithmetic::div_mod::lemma_fundamental_div_mod_converse(f1 * pb + b1, pb, f1, b1);
    vstd::arithmetic::div_mod::lemma_fundamental_div_mod_converse(f2 * pb + b2, pb, f2, b2);
}

/// Copies `batch` activation vectors of `in_f` features from `x` (vector-major)
/// into a zero-padded feature-major matrix with `padded_batch` columns.
pub fn transpose_activations(x: &[i8], batch: usize, in_f: usize, padded_batch: usize) -> (x_t: Vec<i8>)
    requires
        batch <= padded_batch,
        batch * in_f <= x.len(),
        in_f * padded_batch <= usize::MAX,
    ensures
        is_transposed(x_t@, x@, in_f as int, padded_batch as int, batch as int),
        forall|f: int, c: int|
            0 <= f < in_f && batch <= c < padded_batch ==> #[trigger] xt_at(x_t@, padded_batch as int, f, c) == 0,
{
    let n: usize = in_f * padded_batch;
    let mut t: Vec<i8> = Vec::new();
    for k in 0..n
        invariant
            t.len() == k,
            forall|i: int| 0 <= i < k ==> #[trigger] t@[i] == 0,
    {
        t.push(0);
    }
    assert forall|f: int, c: int|
        0 <= f < in_f && batch <= c < padded_batch implies #[trigger] xt_at(t@, padded_batch as int, f, c) == 0 by {
        lemma_xt_index(f, c, in_f as int, padded_batch as int, padded_batch as int);
    }
    for b in 0..batch
        invariant
            t.len() == in_f * padded_batch,
            batch <= padded_batch,
            batch * in_f <= x.len(),
            forall|f: int, c: int|
                0 <= f < in_f && batch <= c < padded_batch ==> #[trigger] xt_at(t@, padded_batch as int, f, c) == 0,
            forall|f: int, c: int|
                0 <= f < in_f && 0 <= c < b ==> #[trigger] xt_at(t@, padded_batch as int, f, c) == x@[c
                    * in_f + f],
    {
        for f in 0..in_f
            invariant
                b < batch,
                t.len() == in_f * padded_batch,
                batch <= padded_batch,
                batch * in_f <= x.len(),
                forall|f2: int, c: int|
                    0 <= f2 < in_f && batch <= c < padded_batch ==> #[trigger] xt_at(t@, padded_batch as int, f2, c) == 0,
                forall|f2: int, c: int|
                    0 <= f2 < in_f && 0 <= c < b ==> #[trigger] xt_at(t@, padded_batch as int, f2, c)
                        == x@[c * in_f + f2],
                forall|f2: int|
                    0 <= f2 < f ==> #[trigger] xt_at(t@, padded_batch as int, f2, b as int) == x@[b
                        * in_f + f2],
        {
            proof {
                lemma_xt_index(f as int, b as int, in_f as int, padded_batch as int, batch as int);
            }
            let ghost prev = t@;
            let idx: usize = f * padded_batch + b;
            t.set(idx, x[b * in_f + f]);
            assert forall|f2: int, c: int|
                0 <= f2 < in_f && batch <= c < padded_batch implies #[trigger] xt_at(t@, padded_batch as int, f2, c) == 0 by {
                lemma_xt_index(f2, c, in_f as int, padded_batch as int, padded_batch as int);
                if f2 * padded_batch + c == idx {
                    lemma_xt_distinct(f2, c, f as int, b as int, padded_batch as int);
                }
                assert(xt_at(prev, padded_batch as int, f2, c) == 0);
            }
            assert forall|f2: int, c: int|
                0 <= f2 < in_f && 0 <= c < b implies #[trigger] xt_at(t@, padded_batch as int, f2, c)
                    == x@[c * in_f + f2] by {
                lemma_xt_index(f2, c, in_f as int, padded_batch as int, batch as int);
                if f2 * padded_batch + c == idx {
                    lemma_xt_distinct(f2, c, f as int, b as int, padded_batch as int);
                }
                assert(xt_at(prev, padded_batch as int, f2, c) == x@[c * in_f + f2]);
            }
            assert forall|f2: int| 0 <= f2 < f + 1 implies #[trigger] xt_at(
                t@,
                padded_batch as int,
                f2,
                b as int,
            ) == x@[b * in_f + f2] by {
                lemma_xt_index(f2, b as int, in_f as int, padded_batch as int, batch as int);
                if f2 < f {
                    if f2 * padded_batch + b == idx {
                        lemma_xt_distinct(f2, b as int, f as int, b as int, padded_batch as int);
                    }
                    assert(xt_at(prev, padded_batch as int, f2, b as int) == x@[b * in_f + f2]);
                }
            }
        }
    }
    t
}

/// CPU backend of the engine.
pub struct CpuBackend {
    pub num_threads: usize,
}

/// Hardware abstraction of the engine: a backend adds the outputs of a
/// context's rows into an output buffer.
pub trait Vec101Backend {
    /// Adds, for every row `r` and each of the `rows_in_batch()` activation vectors
    /// `b`, the row's output to `out[b * num_rows + r]` (wrapping in `i32`). Other entries
    /// of `out` are unchanged.
    fn compute(&self, ctx: &vec101_context, out: &mut [i32])
        requires
            ctx.streams_fit(),
            ctx.rows_in_batch() * ctx.num_rows <= old(out).len(),
            ctx.batch_size + 63 <= usize::MAX,
            ctx.blocks_per_row * 2048 * (ctx.batch_size + 63) <= usize::MAX,
        ensures
            final(out).len() == old(out).len(),
            forall|b: int, r: int|
                0 <= b < ctx.rows_in_batch() && 0 <= r < ctx.num_rows ==> #[trigger] final(out)[b
                    * ctx.num_rows + r] == wrapping_add(
                    old(out)[b * ctx.num_rows + r],
                    ctx.row_output(r, b),
                ),
            forall|i: int|
                ctx.rows_in_batch() * ctx.num_rows <= i < old(out).len() ==> final(out)[i] == old(
                    out,
                )[i],
    ;
}

impl CpuBackend {
    pub fn new(num_threads: usize) -> (r: Self)
        ensures r.num_threads == num_threads,
    {
        Self { num_threads }
    }
}

impl Vec101Backend for CpuBackend {
    /// A batch size above one goes through the batched kernel over transposed
    /// activations, a single vector through the GEMV kernel.
    fn compute(&self, ctx: &vec101_context, out: &mut [i32])
    {
        let is_gemm = ctx.batch_size > 1;
        let nr = ctx.num_rows;
        let bpr = ctx.blocks_per_row;
        proof {
            lemma_mul_le(1, bpr as int * 2048, ctx.rows_in_batch(), bpr as int * 2048);
        }
        let in_features: usize = bpr * 2048;
        if !is_gemm {
            assert(ctx.rows_in_batch() == 1);
            assert(ctx.rows_in_batch() * ctx.num_rows == nr) by (nonlinear_arith)
                requires ctx.rows_in_batch() == 1, nr == ctx.num_rows;
            // Single activation vector: one GEMV pass per row.
            for row in 0..nr
                invariant
                    nr == ctx.num_rows,
                    !is_gemm,
                    ctx.streams_fit(),
                    ctx.rows_in_batch() == 1,
                    nr <= out.len(),
                    out.len() == old(out).len(),
                    forall|r: int|
                        0 <= r < row ==> #[trigger] out[r] == wrapping_add(
                            old(out)[r],
                            ctx.row_output(r, 0),
                        ),
                    forall|i: int| row <= i < old(out).len() ==> out[i] == old(out)[i],
            {
                process_row_gemv(row, ctx, out);
            }
            assert forall|b: int, r: int|
                0 <= b < ctx.rows_in_batch() && 0 <= r < ctx.num_rows implies #[trigger] out[b
                    * ctx.num_rows + r] == wrapping_add(
                    old(out)[b * ctx.num_rows + r],
                    ctx.row_output(r, b),
                ) by {
                assert(b == 0);
                assert(b * ctx.num_rows + r == r);
            }
            return;
        }
        let batch = ctx.batch_size;
        let bp63: usize = batch + 63;
        let padded_batch: usize = bp63 & !63usize;
        assert(padded_batch <= bp63 && bp63 - padded_batch <= 63) by (bit_vector)
            requires padded_batch == bp63 & !63usize;
        proof {
            lemma_mul_le(bpr as int * 2048, padded_batch as int, bpr as int * 2048, batch + 63);
        }
        let x_t = transpose_activations(ctx.x_stream, batch, in_features, padded_batch);
        let mut row_sums: Vec<i32> = Vec::new();
        for k in 0..padded_batch
            invariant
                row_sums.len() == k,
        {
            row_sums.push(0);
        }
        let ghost o = out@;
        for row in 0..nr
            invariant
                nr == ctx.num_rows,
                batch == ctx.batch_size,
                batch > 1,
                in_features == ctx.blocks_per_row * 2048,
                ctx.streams_fit(),
                is_transposed(x_t@, ctx.x_stream@, in_features as int, padded_batch as int, batch as int),
                batch <= row_sums.len(),
                batch * nr <= out.len(),
                out.len() == old(out).len(),
                o == old(out)@,
                forall|b: int, r: int|
                    0 <= b < batch && 0 <= r < row ==> #[trigger] out[b * nr + r] == wrapping_add(
                        o[b * nr + r],
                        ctx.row_output(r, b),
                    ),
                forall|i: int|
                    0 <= i < o.len() && (i >= batch * nr || i % nr as int >= row) ==> out[i] == o[i],
        {
            let ghost prev = out@;
            process_row_gemm(row, ctx, x_t.as_slice(), padded_batch, &mut row_sums, out);
            assert forall|b: int, r: int|
                0 <= b < batch && 0 <= r < row + 1 implies #[trigger] out[b * nr + r] == wrapping_add(
                    o[b * nr + r],
                    ctx.row_output(r, b),
                ) by {
                assert(0 <= b * nr + r < batch * nr && (b * nr + r) % nr as int == r) by {
                    assert(b * nr + r < batch * nr && 0 <= b * nr) by (nonlinear_arith)
                        requires 0 <= b < batch, 0 <= r < nr;
                    vstd::arithmetic::div_mod::lemma_fundamental_div_mod_converse(b * nr + r, nr as int, b, r);
                }
                if r < row {
                    assert(prev[b * nr + r] == out[b * nr + r]);
                }
            }
        }
        assert forall|b: int, r: int|
            0 <= b < ctx.rows_in_batch() && 0 <= r < ctx.num_rows implies #[trigger] out[b
                * ctx.num_rows + r] == wrapping_add(old(out)[b * ctx.num_rows + r], ctx.row_output(r, b)) by {
        }
        assert forall|i: int| ctx.rows_in_batch() * ctx.num_rows <= i < old(out).len() implies out[i]
            == old(out)[i] by {
        }
    }
}

/// The contexts and output buffer lengths [`vec101_compute`] accepts: an empty
/// batch or matrix, or streams large enough for the dimensions, an output
/// buffer holding every (vector, row) pair, and a padded batch whose transposed
/// activations fit in memory.
pub open spec fn runnable(ctx: &vec101_context, out_len: int) -> bool {
    ctx.batch_size == 0 || ctx.num_rows == 0 || {
        &&& ctx.streams_fit()
        &&& ctx.batch_size * ctx.num_rows <= out_len
        &&& ctx.batch_size + 63 <= usize::MAX
        &&& ctx.blocks_per_row * 2048 * (ctx.batch_size + 63) <= usize::MAX
    }
}

/// Whether [`vec101_compute`] accepts `ctx` with an output buffer of `out_len`
/// entries.
pub fn check_runnable(ctx: &vec101_context, out_len: usize) -> (r: bool)
    ensures
        r == runnable(ctx, out_len as int),
{
    if ctx.batch_size == 0 || ctx.num_rows == 0 {
        return true;
    }
    let nr = ctx.num_rows;
    let bpr = ctx.blocks_per_row;
    let batch = ctx.batch_size;
    let unit: usize = match ctx.quant_type {
        QuantType::Bit1_58 => 576,
        QuantType::Q4_0 => 144,
    };
    assert(bpr * unit == row_bytes(ctx.quant_type, bpr as int));
    let row = match bpr.checked_mul(unit) {
        Some(v) => v,
        None => {
            proof {
                lemma_mul_le(1, bpr * unit, nr as int, bpr * unit);
            }
            return false;
        },
    };
    let w_need = match nr.checked_mul(row) {
        Some(v) => v,
        None => {
            return false;
        },
    };
    if w_need > ctx.w_stream.len() {
        return false;
    }
    let feat = match bpr.checked_mul(2048) {
        Some(v) => v,
        None => {
            proof {
                lemma_mul_le(1, bpr * 2048, batch as int, bpr * 2048);
                lemma_mul_le(1, bpr * 2048, batch as int + 63, bpr * 2048);
            }
            return false;
        },
    };
    let x_need = match batch.checked_mul(feat) {
        Some(v) => v,
        None => {
            return false;
        },
    };
    if x_need > ctx.x_stream.len() || nr > ctx.s_stream.len() {
        return false;
    }
    let outs = match batch.checked_mul(nr) {
        Some(v) => v,
        None => {
            return false;
        },
    };
    if outs > out_len {
        return false;
    }
    let padded = match batch.checked_add(63) {
        Some(v) => v,
        None => {
            return false;
        },
    };
    match feat.checked_mul(padded) {
        Some(_) => true,
        None => false,
    }
}

/// The output buffer after [`vec101_compute`]: for each activation vector `b`
/// and row `r`, entry `b * num_rows + r` with the row's output added
/// (wrapping in `i32`); the other entries unchanged.
pub open spec fn computed(ctx: &vec101_context, out: Seq<i32>) -> Seq<i32> {
    Seq::new(
        out.len(),
        |i: int|
            if ctx.batch_size > 0 && ctx.num_rows > 0 && i < ctx.batch_size * ctx.num_rows {
                wrapping_add(out[i], ctx.row_output(i % (ctx.num_rows as int), i / (ctx.num_rows as int)))
            } else {
                out[i]
            },
    )
}

/// Main compute dispatcher: adds the outputs of all rows for all activation vectors
/// of the batch to `out` (see [`CpuBackend::compute`]); does nothing when the batch
/// or the matrix is empty.
pub fn vec101_compute(ctx: &vec101_context, out: &mut [i32])
    requires
        runnable(ctx, old(out)@.len() as int),
    ensures
        final(out).len() == old(out).len(),
        forall|b: int, r: int|
            0 <= b < ctx.batch_size && 0 <= r < ctx.num_rows ==> #[trigger] final(out)[b
                * ctx.num_rows + r] == wrapping_add(old(out)[b * ctx.num_rows + r], ctx.row_output(r, b)),
        forall|i: int|
            0 <= i < old(out).len() && i >= ctx.batch_size * ctx.num_rows ==> final(out)[i] == old(
                out,
            )[i],
        final(out)@ == computed(ctx, old(out)@),
{
    if ctx.batch_size == 0 || ctx.num_rows == 0 {
        assert(out@ =~= computed(ctx, old(out)@));
        return;
    }
    let backend = CpuBackend::new(ctx.num_threads);
    backend.compute(ctx, out);
    proof {
        let nr = ctx.num_rows as int;
        assert forall|i: int| 0 <= i < out@.len() implies #[trigger] out@[i] == computed(ctx, old(out)@)[i] by {
            if i < ctx.batch_size * ctx.num_rows {
                let b = i / nr;
                let r = i % nr;
                vstd::arithmetic::div_mod::lemma_fundamental_div_mod(i, nr);
                assert(0 <= r < nr);
                assert(0 <= b < ctx.batch_size) by (nonlinear_arith)
                    requires i == nr * b + r, 0 <= r < nr, 0 <= i < ctx.batch_size * nr, nr > 0;
                assert(b * nr + r == i) by (nonlinear_arith)
                    requires i == nr * b + r;
            }
        }
        assert(out@ =~= computed(ctx, old(out)@));
    }
}

} // verus!
