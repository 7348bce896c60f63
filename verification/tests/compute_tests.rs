use vec101::compute::{
    q4_block_dot, read_i16, ternary_block_dot, transpose_activations, vec101_compute,
    vec101_context, CpuBackend, Vec101Backend,
};
use vec101::feeder::{pack_weights_to_superblocks, superblocks_to_bytes};
use vec101::types::QuantType;

fn context<'a>(
    quant_type: QuantType,
    w_stream: &'a [u8],
    x_stream: &'a [i8],
    s_stream: &'a [i32],
    batch_size: usize,
    num_rows: usize,
    blocks_per_row: usize,
    num_threads: usize,
) -> vec101_context<'a> {
    vec101_context {
        quant_type,
        w_stream,
        x_stream,
        s_stream,
        kv_blocks: &[],
        num_blocks: 0,
        block_size: 16,
        batch_size,
        num_rows,
        blocks_per_row,
        num_threads,
        tree_mask: &[],
        tree_size: 0,
        hardware_handle: 0,
    }
}

/// One row of one superblock: the first 256 weights are +1 with scale 100,
/// all the other blocks are zero.
fn first_block_row() -> Vec<u8> {
    let mut weights = vec![0i32; 2048];
    for w in weights.iter_mut().take(256) {
        *w = 100;
    }
    superblocks_to_bytes(&pack_weights_to_superblocks(&weights))
}

#[test]
fn test_vec101_compute_early_exit() {
    let ctx = context(QuantType::Bit1_58, &[], &[], &[], 0, 0, 0, 0);
    let mut out: [i32; 0] = [];
    vec101_compute(&ctx, &mut out);
    let mut out = [7i32; 3];
    vec101_compute(&ctx, &mut out);
    assert_eq!(out, [7, 7, 7]);
}

#[test]
fn test_cpu_backend_coverage() {
    let backend = CpuBackend::new(0);
    assert_eq!(backend.num_threads, 0);
    let x_stream = vec![0i8; 2048];
    let w_stream = vec![0u8; 576];
    let s_stream = vec![1i32; 1];
    let mut out_buffer = vec![0i32; 1];
    let ctx = context(QuantType::Bit1_58, &w_stream, &x_stream, &s_stream, 1, 1, 1, 1);
    backend.compute(&ctx, &mut out_buffer);
    assert_eq!(out_buffer, vec![0]);
    let x_stream_gemm = vec![0i8; 4096];
    let mut out_buffer_gemm = vec![0i32; 2];
    let ctx_gemm2 = context(QuantType::Bit1_58, &w_stream, &x_stream_gemm, &s_stream, 2, 1, 1, 1);
    backend.compute(&ctx_gemm2, &mut out_buffer_gemm);
    assert_eq!(out_buffer_gemm, vec![0, 0]);
}

#[test]
fn compute_single_vector_exact_value() {
    let w = first_block_row();
    let x = vec![1i8; 2048];
    // row scale 3.0 in 16.16 fixed point
    let s = [3 * 65536];
    let mut out = [0i32; 1];
    vec101_compute(&context(QuantType::Bit1_58, &w, &x, &s, 1, 1, 1, 1), &mut out);
    // block 0: dot 256 * scale 100 >> 8 = 100; times 3
    assert_eq!(out, [300]);
    // the output accumulates
    vec101_compute(&context(QuantType::Bit1_58, &w, &x, &s, 1, 1, 1, 1), &mut out);
    assert_eq!(out, [600]);
}

#[test]
fn compute_batch_matches_each_vector_alone() {
    let w = first_block_row();
    let mut x = vec![1i8; 2048];
    x.extend(vec![2i8; 2048]);
    let s = [3 * 65536];
    let mut out = [0i32; 3];
    vec101_compute(&context(QuantType::Bit1_58, &w, &x, &s, 2, 1, 1, 4), &mut out);
    assert_eq!(out, [300, 600, 0]);
    let mut alone = [0i32; 1];
    vec101_compute(&context(QuantType::Bit1_58, &w, &x[2048..], &s, 1, 1, 1, 1), &mut alone);
    assert_eq!(alone[0], out[1]);
}

#[test]
fn compute_two_rows_and_negative_weights() {
    let mut weights = vec![0i32; 4096];
    for w in weights.iter_mut().take(256) {
        *w = 100;
    }
    // row 1: block 1 all -1 with scale 512
    for w in weights[2048 + 256..2048 + 512].iter_mut() {
        *w = -512;
    }
    let w = superblocks_to_bytes(&pack_weights_to_superblocks(&weights));
    let x = vec![1i8; 2048];
    let s = [65536, 65536];
    let mut out = [0i32; 2];
    vec101_compute(&context(QuantType::Bit1_58, &w, &x, &s, 1, 2, 1, 1), &mut out);
    // row 1: dot -256 * 512 >> 8 = -512
    assert_eq!(out, [100, -512]);
}

#[test]
fn compute_output_wraps_in_i32() {
    let w = first_block_row();
    let x = vec![1i8; 2048];
    let s = [65536];
    // the row adds 100: 10 below the top, the sum wraps around
    let mut out = [i32::MAX - 10];
    vec101_compute(&context(QuantType::Bit1_58, &w, &x, &s, 1, 1, 1, 1), &mut out);
    assert_eq!(out, [i32::MIN + 89]);
    // just below the top, no wrap
    let mut out = [i32::MAX - 100];
    vec101_compute(&context(QuantType::Bit1_58, &w, &x, &s, 1, 1, 1, 1), &mut out);
    assert_eq!(out, [i32::MAX]);
}

#[test]
fn compute_q4_rows() {
    // one Q4_0 row of 8 blocks (2048 weights), 144 bytes; only block 0 has weights:
    // scale 16, every nibble 9 (weight +1)
    let mut w = vec![0u8; 144];
    for blk in 0..8 {
        // every other nibble 8: weight 0
        for q in 0..16 {
            w[blk * 18 + 2 + q] = 0x88;
        }
    }
    w[0] = 16;
    for q in 0..16 {
        w[2 + q] = 0x99;
    }
    let x = vec![2i8; 2048];
    let s = [65536];
    let mut out = [0i32; 1];
    vec101_compute(&context(QuantType::Q4_0, &w, &x, &s, 1, 1, 1, 1), &mut out);
    // block 0: dot 32 * 2 = 64, times scale 16, >> 8 = 4; the other blocks add 0
    assert_eq!(q4_block_dot(&w, 0, &x, 0), 64);
    assert_eq!(q4_block_dot(&w, 18, &x, 32), 0);
    assert_eq!(out, [4]);
}

#[test]
fn block_kernels_exact_values() {
    let w = first_block_row();
    let x = vec![-1i8; 2048];
    // ternary block 0 of the row (bit planes at byte 64)
    assert_eq!(ternary_block_dot(&w, 64, &x, 0), -256);
    assert_eq!(ternary_block_dot(&w, 128, &x, 256), 0);
    assert_eq!(read_i16(&w, 0), 100);
    assert_eq!(read_i16(&[0xff, 0xff], 0), -1);
}

#[test]
fn transpose_activations_layout() {
    let x: Vec<i8> = vec![1, 2, 3, 4, 5, 6];
    // two vectors of three features, padded to four columns
    let t = transpose_activations(&x, 2, 3, 4);
    assert_eq!(t, vec![1, 4, 0, 0, 2, 5, 0, 0, 3, 6, 0, 0]);
}
