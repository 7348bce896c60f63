use vstd::prelude::*;
use crate::arith::clamp;
use crate::compute::{bit_of, i16_at, ternary_weight, ternary_dot, q4_dot, unit_term, row_sum, row_output};
use crate::types::QuantType;
use crate::feeder::{packs, superblock_stream, superblock_byte, u64_byte, i16_byte, block_scale, ternary_of};
use crate::ops::word_bit;
use crate::types::Vec101SuperBlock;
use crate::conv::{conv_padded_weights, padded_dim};

verus! {

broadcast use vstd::array::group_array_axioms;

proof fn lemma_byte_bit(w: u64, k: int, j: int)
    requires
        0 <= k < 8,
        0 <= j < 8,
    ensures
        bit_of(u64_byte(w, k), j) == (if word_bit(w, 8 * k + j) { 1int } else { 0int }),
{
    let kk = k as u64;
    let jj = j as u64;
    assert((((((w >> (8 * kk)) & 0xffu64) as u8) >> (jj as u8)) & 1u8) == 1u8 <==> ((w >> (8 * kk + jj)) & 1u64)
        == 1u64) by (bit_vector)
        requires kk < 8, jj < 8;
    assert((((((w >> (8 * kk)) & 0xffu64) as u8) >> (jj as u8)) & 1u8) == 1u8 || (((((w >> (8 * kk)) & 0xffu64) as u8)
        >> (jj as u8)) & 1u8) == 0u8) by (bit_vector);
}

proof fn lemma_i16_bytes(v: i16)
    ensures
        i16_byte(v, 0) + 256 * i16_byte(v, 1) == (v as u16) as int,
        (v as u16) as int >= 32768 ==> (v as u16) as int - 65536 == v as int,
        ((v as u16) as int) < 32768 ==> (v as u16) as int == v as int,
{
    let u = v as u16;
    assert(((u & 0xffu16) as u8) as int + 256 * ((u >> 8u16) as u8) as int == u as int) by (bit_vector);
    assert(u >= 32768u16 ==> u as int - 65536 == v as int) by (bit_vector)
        requires u == v as u16;
    assert(u < 32768u16 ==> u as int == v as int) by (bit_vector)
        requires u == v as u16;
}

/// A weight packed into superblocks and laid out as bytes reads back, through
/// the compute kernels' view of a weight stream, as its ternary value; each
/// block's scale reads back as the scale stored for it.
pub proof fn lemma_packed_weights_read_back(r: Seq<Vec101SuperBlock>, w: Seq<i32>, s: int, b: int, t: int)
    requires
        packs(r, w),
        0 <= s < r.len(),
        0 <= b < 8,
        0 <= t < 256,
    ensures
        ternary_weight(superblock_stream(r), s * 576 + 64 + 64 * b, t) == ternary_of(
            w[s * 2048 + b * 256 + t] as int,
            block_scale(w, s * 2048 + b * 256) as int,
        ),
        i16_at(superblock_stream(r), s * 576 + 2 * b) == clamp(
            block_scale(w, s * 2048 + b * 256) as int,
            -32768,
            32767,
        ),
{
    let bytes = superblock_stream(r);
    let blk = s * 576 + 64 + 64 * b;
    let sb = r[s];
    let k = t / 64;
    let j = t % 64;
    assert(0 <= s * 576 && s * 576 + 576 <= r.len() * 576) by (nonlinear_arith)
        requires 0 <= s < r.len();
    // positive plane byte
    let pi = blk + t / 8;
    crate::arith::lemma_row_col(pi, s, 576);
    assert(bytes[pi] == superblock_byte(sb, 64 + 64 * b + t / 8));
    assert((64 + 64 * b + t / 8 - 64) / 64 == b);
    assert((64 + 64 * b + t / 8 - 64) % 64 == t / 8);
    assert(superblock_byte(sb, 64 + 64 * b + t / 8) == u64_byte(sb.blocks@[b].w_pos_bits@[k], (t / 8) % 8));
    lemma_byte_bit(sb.blocks@[b].w_pos_bits@[k], (t / 8) % 8, t % 8);
    assert(8 * ((t / 8) % 8) + t % 8 == j);
    // negative plane byte
    let ni = blk + 32 + t / 8;
    crate::arith::lemma_row_col(ni, s, 576);
    assert(bytes[ni] == superblock_byte(sb, 64 + 64 * b + 32 + t / 8));
    assert((64 + 64 * b + 32 + t / 8 - 64) / 64 == b);
    assert((64 + 64 * b + 32 + t / 8 - 64) % 64 == 32 + t / 8);
    assert(superblock_byte(sb, 64 + 64 * b + 32 + t / 8) == u64_byte(sb.blocks@[b].w_neg_bits@[k], (t / 8) % 8));
    lemma_byte_bit(sb.blocks@[b].w_neg_bits@[k], (t / 8) % 8, t % 8);
    assert(s * 2048 + b * 256 + k * 64 + j == s * 2048 + b * 256 + t);
    assert(word_bit(sb.blocks@[b].w_pos_bits@[k], j) <==> ternary_of(
        w[s * 2048 + b * 256 + k * 64 + j] as int,
        block_scale(w, s * 2048 + b * 256) as int,
    ) == 1);
    assert(word_bit(sb.blocks@[b].w_neg_bits@[k], j) <==> ternary_of(
        w[s * 2048 + b * 256 + k * 64 + j] as int,
        block_scale(w, s * 2048 + b * 256) as int,
    ) == -1);
    // scale bytes
    let o0 = s * 576 + 2 * b;
    crate::arith::lemma_row_col(o0, s, 576);
    crate::arith::lemma_row_col(o0 + 1, s, 576);
    assert(bytes[o0] == superblock_byte(sb, 2 * b));
    assert(bytes[o0 + 1] == superblock_byte(sb, 2 * b + 1));
    assert(superblock_byte(sb, 2 * b) == i16_byte(sb.scales@[b], 0));
    assert(superblock_byte(sb, 2 * b + 1) == i16_byte(sb.scales@[b], 1));
    lemma_i16_bytes(sb.scales@[b]);
}

proof fn lemma_ternary_dot_shift(w: Seq<u8>, blk: int, x: Seq<i8>, a: int, y: Seq<i8>, c: int, n: nat)
    requires
        forall|i: int| 0 <= i < n ==> #[trigger] x[a + i] == y[c + i],
    ensures
        ternary_dot(w, blk, x, a, n) == ternary_dot(w, blk, y, c, n),
    decreases n,
{
    if n > 0 {
        lemma_ternary_dot_shift(w, blk, x, a, y, c, (n - 1) as nat);
        assert(x[a + (n - 1)] == y[c + (n - 1)]);
    }
}

proof fn lemma_q4_dot_shift(w: Seq<u8>, blk: int, x: Seq<i8>, a: int, y: Seq<i8>, c: int, n: nat)
    requires
        forall|i: int| 0 <= i < n ==> #[trigger] x[a + i] == y[c + i],
    ensures
        q4_dot(w, blk, x, a, n) == q4_dot(w, blk, y, c, n),
    decreases n,
{
    if n > 0 {
        lemma_q4_dot_shift(w, blk, x, a, y, c, (n - 1) as nat);
        assert(x[a + (n - 1)] == y[c + (n - 1)]);
    }
}

proof fn lemma_row_sum_shift(
    qt: QuantType,
    w: Seq<u8>,
    row: int,
    bpr: int,
    x: Seq<i8>,
    xo: int,
    y: Seq<i8>,
    n: nat,
)
    requires
        bpr >= 0,
        n <= bpr * 8,
        forall|i: int| 0 <= i < bpr * 2048 ==> x[xo + i] == #[trigger] y[i],
    ensures
        row_sum(qt, w, row, bpr, x, xo, n) == row_sum(qt, w, row, bpr, y, 0, n),
    decreases n,
{
    if n > 0 {
        lemma_row_sum_shift(qt, w, row, bpr, x, xo, y, (n - 1) as nat);
        let i = n - 1;
        match qt {
            QuantType::Bit1_58 => {
                let sub = i % 8;
                let base = (i / 8) * 2048 + 256 * sub;
                assert(0 <= base && base + 256 <= bpr * 2048) by (nonlinear_arith)
                    requires 0 <= i < bpr * 8, sub == i % 8, base == (i / 8) * 2048 + 256 * sub;
                assert forall|k: int| 0 <= k < 256 implies #[trigger] x[(xo + (i / 8) * 2048) + 256 * sub + k] == y[(0 + (i / 8)
                    * 2048) + 256 * sub + k] by {
                    assert(x[xo + (base + k)] == y[base + k]);
                }
                lemma_ternary_dot_shift(
                    w,
                    (row * bpr + i / 8) * 576 + 64 + 64 * sub,
                    x,
                    (xo + (i / 8) * 2048) + 256 * sub,
                    y,
                    (0 + (i / 8) * 2048) + 256 * sub,
                    256,
                );
            },
            QuantType::Q4_0 => {
                assert(0 <= i * 32 && i * 32 + 32 <= bpr * 2048) by (nonlinear_arith)
                    requires 0 <= i < bpr * 8;
                assert forall|k: int| 0 <= k < 32 implies #[trigger] x[xo + i * 32 + k] == y[0 + i * 32 + k] by {
                    assert(x[xo + (i * 32 + k)] == y[i * 32 + k]);
                }
                lemma_q4_dot_shift(w, (row * bpr * 8 + i) * 18, x, xo + i * 32, y, 0 + i * 32, 32);
            },
        }
        assert(unit_term(qt, w, row, bpr, i, x, xo) == unit_term(qt, w, row, bpr, i, y, 0));
    }
}

/// Each activation vector of a batch gets the output it would get alone: a
/// row's output for vector `b` of `x` is its output for the activations of
/// that vector only.
pub proof fn lemma_batch_vectors_independent(
    qt: QuantType,
    w: Seq<u8>,
    s: i32,
    row: int,
    bpr: int,
    x: Seq<i8>,
    b: int,
)
    requires
        bpr >= 0,
        b >= 0,
        (b + 1) * bpr * 2048 <= x.len(),
    ensures
        row_output(qt, w, s, row, bpr, x, b * bpr * 2048) == row_output(
            qt,
            w,
            s,
            row,
            bpr,
            x.subrange(b * bpr * 2048, (b + 1) * bpr * 2048),
            0,
        ),
{
    let y = x.subrange(b * bpr * 2048, (b + 1) * bpr * 2048);
    assert((b + 1) * bpr * 2048 == b * bpr * 2048 + bpr * 2048) by (nonlinear_arith);
    assert(0 <= b * bpr * 2048) by (nonlinear_arith)
        requires b >= 0, bpr >= 0;
    assert forall|i: int| 0 <= i < bpr * 2048 implies x[b * bpr * 2048 + i] == #[trigger] y[i] by {}
    lemma_row_sum_shift(qt, w, row, bpr, x, b * bpr * 2048, y, (bpr * 8) as nat);
}

/// Packed weights are ternary: no weight sets both its positive and its
/// negative bit.
pub proof fn lemma_packed_planes_disjoint(r: Seq<Vec101SuperBlock>, w: Seq<i32>, s: int, b: int, k: int, j: int)
    requires
        packs(r, w),
        0 <= s < r.len(),
        0 <= b < 8,
        0 <= k < 4,
        0 <= j < 64,
    ensures
        !(word_bit(r[s].blocks@[b].w_pos_bits@[k], j) && word_bit(r[s].blocks@[b].w_neg_bits@[k], j)),
{
    assert(word_bit(r[s].blocks@[b].w_pos_bits@[k], j) <==> ternary_of(
        w[s * 2048 + b * 256 + k * 64 + j] as int,
        block_scale(w, s * 2048 + b * 256) as int,
    ) == 1);
    assert(word_bit(r[s].blocks@[b].w_neg_bits@[k], j) <==> ternary_of(
        w[s * 2048 + b * 256 + k * 64 + j] as int,
        block_scale(w, s * 2048 + b * 256) as int,
    ) == -1);
}

/// Two words with the same bits are equal.
proof fn lemma_word_bits_eq(a: u64, b: u64)
    requires
        forall|j: int| 0 <= j < 64 ==> #[trigger] word_bit(a, j) == word_bit(b, j),
    ensures
        a == b,
{
    assert(word_bit(a, 0) == word_bit(b, 0));
    assert(word_bit(a, 1) == word_bit(b, 1));
    assert(word_bit(a, 2) == word_bit(b, 2));
    assert(word_bit(a, 3) == word_bit(b, 3));
    assert(word_bit(a, 4) == word_bit(b, 4));
    assert(word_bit(a, 5) == word_bit(b, 5));
    assert(word_bit(a, 6) == word_bit(b, 6));
    assert(word_bit(a, 7) == word_bit(b, 7));
    assert(word_bit(a, 8) == word_bit(b, 8));
    assert(word_bit(a, 9) == word_bit(b, 9));
    assert(word_bit(a, 10) == word_bit(b, 10));
    assert(word_bit(a, 11) == word_bit(b, 11));
    assert(word_bit(a, 12) == word_bit(b, 12));
    assert(word_bit(a, 13) == word_bit(b, 13));
    assert(word_bit(a, 14) == word_bit(b, 14));
    assert(word_bit(a, 15) == word_bit(b, 15));
    assert(word_bit(a, 16) == word_bit(b, 16));
    assert(word_bit(a, 17) == word_bit(b, 17));
    assert(word_bit(a, 18) == word_bit(b, 18));
    assert(word_bit(a, 19) == word_bit(b, 19));
    assert(word_bit(a, 20) == word_bit(b, 20));
    assert(word_bit(a, 21) == word_bit(b, 21));
    assert(word_bit(a, 22) == word_bit(b, 22));
    assert(word_bit(a, 23) == word_bit(b, 23));
    assert(word_bit(a, 24) == word_bit(b, 24));
    assert(word_bit(a, 25) == word_bit(b, 25));
    assert(word_bit(a, 26) == word_bit(b, 26));
    assert(word_bit(a, 27) == word_bit(b, 27));
    assert(word_bit(a, 28) == word_bit(b, 28));
    assert(word_bit(a, 29) == word_bit(b, 29));
    assert(word_bit(a, 30) == word_bit(b, 30));
    assert(word_bit(a, 31) == word_bit(b, 31));
    assert(word_bit(a, 32) == word_bit(b, 32));
    assert(word_bit(a, 33) == word_bit(b, 33));
    assert(word_bit(a, 34) == word_bit(b, 34));
    assert(word_bit(a, 35) == word_bit(b, 35));
    assert(word_bit(a, 36) == word_bit(b, 36));
    assert(word_bit(a, 37) == word_bit(b, 37));
    assert(word_bit(a, 38) == word_bit(b, 38));
    assert(word_bit(a, 39) == word_bit(b, 39));
    assert(word_bit(a, 40) == word_bit(b, 40));
    assert(word_bit(a, 41) == word_bit(b, 41));
    assert(word_bit(a, 42) == word_bit(b, 42));
    assert(word_bit(a, 43) == word_bit(b, 43));
    assert(word_bit(a, 44) == word_bit(b, 44));
    assert(word_bit(a, 45) == word_bit(b, 45));
    assert(word_bit(a, 46) == word_bit(b, 46));
    assert(word_bit(a, 47) == word_bit(b, 47));
    assert(word_bit(a, 48) == word_bit(b, 48));
    assert(word_bit(a, 49) == word_bit(b, 49));
    assert(word_bit(a, 50) == word_bit(b, 50));
    assert(word_bit(a, 51) == word_bit(b, 51));
    assert(word_bit(a, 52) == word_bit(b, 52));
    assert(word_bit(a, 53) == word_bit(b, 53));
    assert(word_bit(a, 54) == word_bit(b, 54));
    assert(word_bit(a, 55) == word_bit(b, 55));
    assert(word_bit(a, 56) == word_bit(b, 56));
    assert(word_bit(a, 57) == word_bit(b, 57));
    assert(word_bit(a, 58) == word_bit(b, 58));
    assert(word_bit(a, 59) == word_bit(b, 59));
    assert(word_bit(a, 60) == word_bit(b, 60));
    assert(word_bit(a, 61) == word_bit(b, 61));
    assert(word_bit(a, 62) == word_bit(b, 62));
    assert(word_bit(a, 63) == word_bit(b, 63));
    assert(a == b) by (bit_vector)
        requires
            ((a >> 0u64) & 1u64 == 1u64) == ((b >> 0u64) & 1u64 == 1u64),
            ((a >> 1u64) & 1u64 == 1u64) == ((b >> 1u64) & 1u64 == 1u64),
            ((a >> 2u64) & 1u64 == 1u64) == ((b >> 2u64) & 1u64 == 1u64),
            ((a >> 3u64) & 1u64 == 1u64) == ((b >> 3u64) & 1u64 == 1u64),
            ((a >> 4u64) & 1u64 == 1u64) == ((b >> 4u64) & 1u64 == 1u64),
            ((a >> 5u64) & 1u64 == 1u64) == ((b >> 5u64) & 1u64 == 1u64),
            ((a >> 6u64) & 1u64 == 1u64) == ((b >> 6u64) & 1u64 == 1u64),
            ((a >> 7u64) & 1u64 == 1u64) == ((b >> 7u64) & 1u64 == 1u64),
            ((a >> 8u64) & 1u64 == 1u64) == ((b >> 8u64) & 1u64 == 1u64),
            ((a >> 9u64) & 1u64 == 1u64) == ((b >> 9u64) & 1u64 == 1u64),
            ((a >> 10u64) & 1u64 == 1u64) == ((b >> 10u64) & 1u64 == 1u64),
            ((a >> 11u64) & 1u64 == 1u64) == ((b >> 11u64) & 1u64 == 1u64),
            ((a >> 12u64) & 1u64 == 1u64) == ((b >> 12u64) & 1u64 == 1u64),
            ((a >> 13u64) & 1u64 == 1u64) == ((b >> 13u64) & 1u64 == 1u64),
            ((a >> 14u64) & 1u64 == 1u64) == ((b >> 14u64) & 1u64 == 1u64),
            ((a >> 15u64) & 1u64 == 1u64) == ((b >> 15u64) & 1u64 == 1u64),
            ((a >> 16u64) & 1u64 == 1u64) == ((b >> 16u64) & 1u64 == 1u64),
            ((a >> 17u64) & 1u64 == 1u64) == ((b >> 17u64) & 1u64 == 1u64),
            ((a >> 18u64) & 1u64 == 1u64) == ((b >> 18u64) & 1u64 == 1u64),
            ((a >> 19u64) & 1u64 == 1u64) == ((b >> 19u64) & 1u64 == 1u64),
            ((a >> 20u64) & 1u64 == 1u64) == ((b >> 20u64) & 1u64 == 1u64),
            ((a >> 21u64) & 1u64 == 1u64) == ((b >> 21u64) & 1u64 == 1u64),
            ((a >> 22u64) & 1u64 == 1u64) == ((b >> 22u64) & 1u64 == 1u64),
            ((a >> 23u64) & 1u64 == 1u64) == ((b >> 23u64) & 1u64 == 1u64),
            ((a >> 24u64) & 1u64 == 1u64) == ((b >> 24u64) & 1u64 == 1u64),
            ((a >> 25u64) & 1u64 == 1u64) == ((b >> 25u64) & 1u64 == 1u64),
            ((a >> 26u64) & 1u64 == 1u64) == ((b >> 26u64) & 1u64 == 1u64),
            ((a >> 27u64) & 1u64 == 1u64) == ((b >> 27u64) & 1u64 == 1u64),
            ((a >> 28u64) & 1u64 == 1u64) == ((b >> 28u64) & 1u64 == 1u64),
            ((a >> 29u64) & 1u64 == 1u64) == ((b >> 29u64) & 1u64 == 1u64),
            ((a >> 30u64) & 1u64 == 1u64) == ((b >> 30u64) & 1u64 == 1u64),
            ((a >> 31u64) & 1u64 == 1u64) == ((b >> 31u64) & 1u64 == 1u64),
            ((a >> 32u64) & 1u64 == 1u64) == ((b >> 32u64) & 1u64 == 1u64),
            ((a >> 33u64) & 1u64 == 1u64) == ((b >> 33u64) & 1u64 == 1u64),
            ((a >> 34u64) & 1u64 == 1u64) == ((b >> 34u64) & 1u64 == 1u64),
            ((a >> 35u64) & 1u64 == 1u64) == ((b >> 35u64) & 1u64 == 1u64),
            ((a >> 36u64) & 1u64 == 1u64) == ((b >> 36u64) & 1u64 == 1u64),
            ((a >> 37u64) & 1u64 == 1u64) == ((b >> 37u64) & 1u64 == 1u64),
            ((a >> 38u64) & 1u64 == 1u64) == ((b >> 38u64) & 1u64 == 1u64),
            ((a >> 39u64) & 1u64 == 1u64) == ((b >> 39u64) & 1u64 == 1u64),
            ((a >> 40u64) & 1u64 == 1u64) == ((b >> 40u64) & 1u64 == 1u64),
            ((a >> 41u64) & 1u64 == 1u64) == ((b >> 41u64) & 1u64 == 1u64),
            ((a >> 42u64) & 1u64 == 1u64) == ((b >> 42u64) & 1u64 == 1u64),
            ((a >> 43u64) & 1u64 == 1u64) == ((b >> 43u64) & 1u64 == 1u64),
            ((a >> 44u64) & 1u64 == 1u64) == ((b >> 44u64) & 1u64 == 1u64),
            ((a >> 45u64) & 1u64 == 1u64) == ((b >> 45u64) & 1u64 == 1u64),
            ((a >> 46u64) & 1u64 == 1u64) == ((b >> 46u64) & 1u64 == 1u64),
            ((a >> 47u64) & 1u64 == 1u64) == ((b >> 47u64) & 1u64 == 1u64),
            ((a >> 48u64) & 1u64 == 1u64) == ((b >> 48u64) & 1u64 == 1u64),
            ((a >> 49u64) & 1u64 == 1u64) == ((b >> 49u64) & 1u64 == 1u64),
            ((a >> 50u64) & 1u64 == 1u64) == ((b >> 50u64) & 1u64 == 1u64),
            ((a >> 51u64) & 1u64 == 1u64) == ((b >> 51u64) & 1u64 == 1u64),
            ((a >> 52u64) & 1u64 == 1u64) == ((b >> 52u64) & 1u64 == 1u64),
            ((a >> 53u64) & 1u64 == 1u64) == ((b >> 53u64) & 1u64 == 1u64),
            ((a >> 54u64) & 1u64 == 1u64) == ((b >> 54u64) & 1u64 == 1u64),
            ((a >> 55u64) & 1u64 == 1u64) == ((b >> 55u64) & 1u64 == 1u64),
            ((a >> 56u64) & 1u64 == 1u64) == ((b >> 56u64) & 1u64 == 1u64),
            ((a >> 57u64) & 1u64 == 1u64) == ((b >> 57u64) & 1u64 == 1u64),
            ((a >> 58u64) & 1u64 == 1u64) == ((b >> 58u64) & 1u64 == 1u64),
            ((a >> 59u64) & 1u64 == 1u64) == ((b >> 59u64) & 1u64 == 1u64),
            ((a >> 60u64) & 1u64 == 1u64) == ((b >> 60u64) & 1u64 == 1u64),
            ((a >> 61u64) & 1u64 == 1u64) == ((b >> 61u64) & 1u64 == 1u64),
            ((a >> 62u64) & 1u64 == 1u64) == ((b >> 62u64) & 1u64 == 1u64),
            ((a >> 63u64) & 1u64 == 1u64) == ((b >> 63u64) & 1u64 == 1u64),
    ;
}

/// Packing is determined by the weights: two superblock sequences that both
/// pack the same weights are equal. So what `pack_weights_to_superblocks`
/// returns is the only packing of its weights, and what `pack_conv_weights`
/// returns is exactly what `pack_weights_to_superblocks` gives for the
/// channel weights padded with zeros (`conv_padded_weights`).
pub proof fn lemma_packing_is_unique(r1: Seq<Vec101SuperBlock>, r2: Seq<Vec101SuperBlock>, w: Seq<i32>)
    requires
        packs(r1, w),
        packs(r2, w),
    ensures
        r1 == r2,
{
    assert forall|s: int| 0 <= s < r1.len() implies r1[s] == r2[s] by {
        let a = r1[s];
        let b = r2[s];
        assert forall|i: int| 0 <= i < 8 implies a.scales[i] == b.scales[i] by {
            assert((a.scales@[i]) as int == (b.scales@[i]) as int);
        }
        assert(a.scales =~= b.scales);
        assert forall|i: int| 0 <= i < 8 implies a.offsets[i] == b.offsets[i] by {
            assert(a.offsets@[i] == 0 && b.offsets@[i] == 0);
        }
        assert(a.offsets =~= b.offsets);
        assert forall|i: int| 0 <= i < 32 implies a._padding[i] == b._padding[i] by {
            assert(a._padding@[i] == 0 && b._padding@[i] == 0);
        }
        assert(a._padding =~= b._padding);
        assert forall|bi: int| 0 <= bi < 8 implies a.blocks[bi] == b.blocks[bi] by {
            let x = a.blocks@[bi];
            let y = b.blocks@[bi];
            assert forall|k: int| 0 <= k < 4 implies x.w_pos_bits[k] == y.w_pos_bits[k] by {
                assert forall|j: int| 0 <= j < 64 implies #[trigger] word_bit(x.w_pos_bits@[k], j) == word_bit(
                    y.w_pos_bits@[k],
                    j,
                ) by {
                    assert(word_bit(r1[s].blocks@[bi].w_pos_bits@[k], j) == word_bit(r2[s].blocks@[bi].w_pos_bits@[k], j));
                }
                lemma_word_bits_eq(x.w_pos_bits@[k], y.w_pos_bits@[k]);
            }
            assert forall|k: int| 0 <= k < 4 implies x.w_neg_bits[k] == y.w_neg_bits[k] by {
                assert forall|j: int| 0 <= j < 64 implies #[trigger] word_bit(x.w_neg_bits@[k], j) == word_bit(
                    y.w_neg_bits@[k],
                    j,
                ) by {
                    assert(word_bit(r1[s].blocks@[bi].w_neg_bits@[k], j) == word_bit(r2[s].blocks@[bi].w_neg_bits@[k], j));
                }
                lemma_word_bits_eq(x.w_neg_bits@[k], y.w_neg_bits@[k]);
            }
            assert(x.w_pos_bits =~= y.w_pos_bits);
            assert(x.w_neg_bits =~= y.w_neg_bits);
        }
        assert(a.blocks =~= b.blocks);
    }
    assert(r1 =~= r2);
}

/// Convolution weights pack as their channels padded: what
/// `pack_conv_weights` returns (a packing of `conv_padded_weights`) equals
/// what `pack_weights_to_superblocks` returns for those padded weights (each
/// output channel's weights followed by zeros up to a whole number of
/// superblocks), and each output channel owns `padded_dim(inner) / 2048`
/// consecutive superblocks.
pub proof fn lemma_conv_packing_is_padded_packing(
    conv_packed: Seq<Vec101SuperBlock>,
    padded_packed: Seq<Vec101SuperBlock>,
    weights: Seq<i32>,
    out_channels: int,
    inner: int,
)
    requires
        out_channels >= 0,
        inner >= 0,
        packs(conv_packed, conv_padded_weights(weights, out_channels, inner, padded_dim(inner))),
        packs(padded_packed, conv_padded_weights(weights, out_channels, inner, padded_dim(inner))),
    ensures
        conv_packed == padded_packed,
        conv_packed.len() == out_channels * (padded_dim(inner) / 2048),
{
    lemma_packing_is_unique(conv_packed, padded_packed, conv_padded_weights(weights, out_channels, inner, padded_dim(inner)));
    let q = (inner + 2047) / 2048;
    assert(q >= 0);
    assert(padded_dim(inner) == q * 2048);
    assert(padded_dim(inner) / 2048 == q) by {
        vstd::arithmetic::div_mod::lemma_div_multiples_vanish(q, 2048);
    }
    assert(out_channels * padded_dim(inner) == (out_channels * q) * 2048) by (nonlinear_arith)
        requires padded_dim(inner) == q * 2048;
    assert(out_channels * q >= 0) by (nonlinear_arith)
        requires out_channels >= 0, q >= 0;
    assert((out_channels * q) * 2048 / 2048 == out_channels * q) by {
        vstd::arithmetic::div_mod::lemma_div_multiples_vanish(out_channels * q, 2048);
    }
}

} // verus!
