use vec101::ops::{max_abs_product, requantize_q15, sum_squares_i8};
use vec101::ops::{
    attention, gelu, geglu, quantize_to_ternary, rmsnorm, rmsnorm_int8, rope, silu, swiglu,
    swiglu_int8,
};
use vec101::types::vec101_block;

#[test]
fn ops_test_rmsnorm() {
    let mut x = vec![1 << 16, 2 << 16, 3 << 16, 4 << 16];
    let w = vec![1 << 16; 4];
    rmsnorm(&mut x, &w, 1);
    assert!(x[0] != 0);
}

#[test]
fn rmsnorm_exact_values() {
    let mut x = vec![1 << 16, 2 << 16, 3 << 16, 4 << 16];
    let w = vec![1 << 16; 4];
    rmsnorm(&mut x, &w, 1);
    // mean square 7.5 (+eps) -> 1/sqrt approximated by 2^-9 in Q16.16
    assert_eq!(x, vec![128, 256, 384, 512]);
}

#[test]
fn rmsnorm_normalizes_each_row_separately() {
    let mut x = vec![1 << 16, 1 << 16, 4 << 16, 4 << 16];
    let w = vec![1 << 16, 2 << 16];
    rmsnorm(&mut x, &w, 0);
    // Each row is scaled by 1/sqrt of its own mean square (taken as an
    // integer): 2^16 -> 2^-8 and 2^20 -> 2^-10 in Q16.16.
    assert_eq!(x, vec![256, 512, 256, 512]);
}

#[test]
fn test_silu() {
    assert_eq!(silu(0), 0);
    assert!(silu(1 << 16) > 0);
    assert!(silu(-(1 << 16)) < 0);
}

#[test]
fn silu_exact_values() {
    assert_eq!(silu(1 << 16), 47171);
    assert_eq!(silu(-(1 << 16)), -16867);
    assert_eq!(silu(2 << 16), 115042);
}

#[test]
fn test_swiglu() {
    let mut x = vec![1 << 16, -(1 << 16)];
    let v = vec![1 << 16, 1 << 16];
    swiglu(&mut x, &v);
    assert!(x[0] > 0);
}

#[test]
fn swiglu_exact_values() {
    let mut x = vec![1 << 16, -(1 << 16)];
    let v = vec![1 << 16, 2 << 16];
    swiglu(&mut x, &v);
    assert_eq!(x, vec![47171, -33734]);
}

#[test]
fn test_gelu() {
    assert_eq!(gelu(0), 0);
    assert!(gelu(1 << 16) > 0);
    assert!(gelu(-(1 << 16)) < 0);
}

#[test]
fn gelu_exact_values() {
    assert_eq!(gelu(1 << 16), 55636);
    assert_eq!(gelu(-(1 << 16)), -10894);
    assert_eq!(gelu(2 << 16), 128264);
    assert_eq!(gelu(3 << 16), 196380);
}

#[test]
fn test_geglu() {
    let mut x = vec![1 << 16, -(1 << 16)];
    let v = vec![1 << 16, 1 << 16];
    geglu(&mut x, &v);
    assert!(x[0] > 0);
}

#[test]
fn geglu_exact_values() {
    let mut x = vec![1 << 16, -(1 << 16)];
    let v = vec![1 << 16, 1 << 16];
    geglu(&mut x, &v);
    assert_eq!(x, vec![55636, -10894]);
}

#[test]
fn ops_test_rope() {
    let mut q = vec![1; 4];
    let mut k = vec![2; 4];
    rope(&mut q, &mut k, 0, 4, 2, 10000);
    assert_eq!(q[0], 1);
    assert_eq!(k[0], 2);
}

#[test]
fn rope_leaves_both_unchanged() {
    let mut q = vec![5, -6, 7];
    let mut k = vec![8, 9, -10, 11];
    rope(&mut q, &mut k, 3, 3, 1, 500);
    assert_eq!(q, vec![5, -6, 7]);
    assert_eq!(k, vec![8, 9, -10, 11]);
}

#[test]
fn test_attention() {
    let q = vec![1 << 16; 4];
    let k_cache = vec![vec![1 << 16; 4]];
    let v_cache = vec![vec![1 << 16; 4]];
    let mut out = vec![0; 4];
    attention(&q, &k_cache, &v_cache, 0, 2, 2, &mut out);
    assert!(out[0] > 0);
}

#[test]
fn attention_single_key_returns_its_value() {
    let q = vec![1 << 16; 4];
    let k_cache = vec![vec![1 << 16; 4]];
    let v_cache = vec![vec![3 << 16, -(2 << 16), 5, 7]];
    let mut out = vec![0; 4];
    attention(&q, &k_cache, &v_cache, 0, 2, 2, &mut out);
    assert_eq!(out, vec![3 << 16, -(2 << 16), 5, 7]);
}

#[test]
fn attention_equal_scores_average_values() {
    // Two cached positions with equal keys: weights 1/2 each.
    let q = vec![1 << 16, 0];
    let k_cache = vec![vec![1 << 16, 0], vec![1 << 16, 0]];
    let v_cache = vec![vec![2 << 16, 4], vec![4 << 16, 8]];
    let mut out = vec![0; 2];
    attention(&q, &k_cache, &v_cache, 1, 1, 2, &mut out);
    assert_eq!(out, vec![3 << 16, 4 + 2]);
}

#[test]
fn ops_test_rmsnorm_int8() {
    let q = vec![1, 2, 3, 4];
    let w = vec![1, 1, 1, 1];
    let mut out_q = vec![0; 4];
    let mut out_scales = vec![0; 1];
    rmsnorm_int8(&q, &w, 100, 1, &mut out_q, &mut out_scales);
    assert!(out_scales[0] >= 0);
}

#[test]
fn rmsnorm_int8_exact_values() {
    let q = vec![10, 20, 30, 40, -5, 6, 7, 8];
    let w = vec![1, 2, 3, 4];
    let mut out_q = vec![0; 8];
    let mut out_scales = vec![0; 2];
    rmsnorm_int8(&q, &w, 1 << 24, 0, &mut out_q, &mut out_scales);
    assert_eq!(out_q, vec![15, 63, 127, 127, -40, 96, 127, 127]);
    assert_eq!(out_scales, vec![20, 16]);

    let mut out_q2 = vec![0; 4];
    let mut out_scales2 = vec![0; 1];
    rmsnorm_int8(&[1, 2, 3, 4], &[1, 1, 1, 1], 100, 1, &mut out_q2, &mut out_scales2);
    assert_eq!(out_q2, vec![0, 0, 0, 0]);
    assert_eq!(out_scales2, vec![1]);
}

#[test]
fn ops_test_swiglu_int8() {
    let q = vec![1, -1];
    let in_scales = vec![100];
    let v = vec![1, 1];
    let mut out_q = vec![0; 2];
    let mut out_scales = vec![0; 1];
    swiglu_int8(&q, &in_scales, &v, 100, &mut out_q, &mut out_scales);
    assert!(out_scales[0] >= 0);
}

#[test]
fn swiglu_int8_exact_values() {
    let q = vec![100, -5, 20, 0];
    let in_scales = vec![65536];
    let v = vec![2, 3, -4, 5];
    let mut out_q = vec![0; 4];
    let mut out_scales = vec![0; 1];
    swiglu_int8(&q, &in_scales, &v, 1 << 20, &mut out_q, &mut out_scales);
    assert_eq!(out_q, vec![127, -1, -102, 0]);
    assert_eq!(out_scales, vec![6450]);

    let mut out_q2 = vec![0; 2];
    let mut out_scales2 = vec![0; 1];
    swiglu_int8(&[1, -1], &[100], &[1, 1], 100, &mut out_q2, &mut out_scales2);
    assert_eq!(out_q2, vec![0, -1]);
    assert_eq!(out_scales2, vec![1]);
}

#[test]
fn ops_test_quantize_to_ternary() {
    let x_i8 = vec![1; 256];
    let mut blocks = vec![vec101_block { w_pos_bits: [0; 4], w_neg_bits: [0; 4] }; 1];
    let scale = quantize_to_ternary(&x_i8, &mut blocks);
    assert_eq!(scale, 1);

    let empty_i8: Vec<i8> = vec![];
    let mut empty_blocks = vec![];
    let scale2 = quantize_to_ternary(&empty_i8, &mut empty_blocks);
    assert_eq!(scale2, 0);

    // Test negatives and zeros
    let mut mixed = vec![0; 256];
    mixed[0] = 1;
    mixed[1] = -1;
    let mut blocks2 = vec![vec101_block { w_pos_bits: [0; 4], w_neg_bits: [0; 4] }; 1];
    quantize_to_ternary(&mixed, &mut blocks2);
    assert_eq!(blocks2[0].w_pos_bits[0] & 1, 1);
    assert_eq!(blocks2[0].w_neg_bits[0] & 2, 2);
}

#[test]
fn quantize_to_ternary_bit_planes_and_tail() {
    let mut x = vec![0i8; 300];
    x[65] = 50;
    x[255] = -3;
    x[256] = 100;
    let mut blocks = vec![vec101_block { w_pos_bits: [7; 4], w_neg_bits: [7; 4] }; 2];
    let scale = quantize_to_ternary(&x, &mut blocks);
    assert_eq!(scale, (50 + 3 + 100) / 300);
    assert_eq!(blocks[0].w_pos_bits, [0, 2, 0, 0]);
    assert_eq!(blocks[0].w_neg_bits, [0, 0, 0, 1 << 63]);
    // The 44-element tail gets no block.
    assert_eq!(blocks[1].w_pos_bits, [7; 4]);
    assert_eq!(blocks[1].w_neg_bits, [7; 4]);
}

#[test]
fn test_quantize_to_ternary() {
    let mut x = vec![0i8; 256];
    x[0] = 50;
    x[1] = -50;
    x[2] = 0;
    let mut blocks = vec![vec101_block { w_pos_bits: [0; 4], w_neg_bits: [0; 4] }];
    quantize_to_ternary(&x, &mut blocks);
    assert_eq!(blocks[0].w_pos_bits[0] & 1, 1);
    assert_eq!(blocks[0].w_neg_bits[0] & 2, 2);
    assert_eq!(blocks[0].w_pos_bits[0] & 4, 0);
}

#[test]
fn int8_integer_passes_exact_values() {
    assert_eq!(sum_squares_i8(&[1, -2, 3, -128]), 1 + 4 + 9 + 16384);
    assert_eq!(sum_squares_i8(&[]), 0);
    assert_eq!(max_abs_product(&[3, -128, 5], &[4, 127, -100, 9]), 16256);
    assert_eq!(max_abs_product(&[], &[1]), 0);
    // 100 * 16384 >> 15 = 50; large values clamp, negatives round down
    assert_eq!(requantize_q15(100, 16384), 50);
    assert_eq!(requantize_q15(1000, 32768), 127);
    assert_eq!(requantize_q15(-3, 16384), -2);
    assert_eq!(requantize_q15(-10000, 32768), -128);
}
