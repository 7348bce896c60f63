use vec101::feeder::{
    append_superblocks, dynamic_quantize_to_int8, memory_reorder, mutate_weights_with_threshold,
    pack_weights_to_superblocks, superblocks_to_bytes,
};

#[test]
fn feeder_test_dynamic_quantize() {
    let input = vec![100, 200, -1000, 0];
    let (quantized, scale) = dynamic_quantize_to_int8(&input);
    assert_eq!(scale, 1000 / 127);
    assert_eq!(quantized[2], -128);
    assert_eq!(quantized[3], 0);
}

#[test]
fn feeder_test_memory_reorder() {
    let input = vec![1, 2, 3];
    let i_stream = vec![0, 1];
    let out = memory_reorder(&input, &i_stream, 2);
    assert_eq!(out, vec![1, 2, 3, 1]);
}

#[test]
fn feeder_test_pack_weights_to_superblocks() {
    let mut weights = vec![0i32; 2048];
    weights[0] = 200;
    weights[1] = -200;
    weights[64] = 200;
    let superblocks = pack_weights_to_superblocks(&weights);
    assert_eq!(superblocks.len(), 1);
    let sb = &superblocks[0];
    let block0 = &sb.blocks[0];
    assert_eq!(block0.w_pos_bits[0] & 1, 1);
    assert_eq!(block0.w_neg_bits[0] & 2, 2);
    assert_eq!(block0.w_pos_bits[1] & 1, 1);
}

#[test]
fn test_dynamic_quantize_edge_cases() {
    let input_zeros = vec![0, 0, 0];
    let (_q_zeros, s_zeros) = dynamic_quantize_to_int8(&input_zeros);
    assert_eq!(s_zeros, 1);
    let input_small = vec![10, -10];
    let (q_small, s_small) = dynamic_quantize_to_int8(&input_small);
    assert_eq!(s_small, 1);
    assert_eq!(q_small[0], 10);
}

#[test]
fn dynamic_quantize_exact_values() {
    // max_abs = 254, scale = 2
    let (q, s) = dynamic_quantize_to_int8(&[254, -127, 3, -3, 0]);
    assert_eq!(s, 2);
    assert_eq!(q, vec![127, -63, 1, -1, 0]);
    let (q, s) = dynamic_quantize_to_int8(&[]);
    assert_eq!(s, 1);
    assert!(q.is_empty());
}

#[test]
fn memory_reorder_picks_blocks_by_index() {
    let input: Vec<i8> = vec![10, 11, 20, 21, 30, 31];
    let out = memory_reorder(&input, &[2, 0, 2], 2);
    assert_eq!(out, vec![30, 31, 10, 11, 30, 31]);
    let empty = memory_reorder(&input, &[], 4);
    assert!(empty.is_empty());
}

#[test]
fn pack_weights_scales_and_signs() {
    let mut weights = vec![0i32; 4096];
    // block 0 of superblock 0: mean |w| = 512/256 = 2, ternary threshold at half of it
    weights[0] = 300;
    weights[5] = -212;
    // superblock 1, block 3
    weights[2048 + 3 * 256 + 70] = -256;
    let sbs = pack_weights_to_superblocks(&weights);
    assert_eq!(sbs.len(), 2);
    assert_eq!(sbs[0].scales[0], 2);
    assert_eq!(sbs[0].blocks[0].w_pos_bits[0], 1);
    assert_eq!(sbs[0].blocks[0].w_neg_bits[0], 1 << 5);
    // an all-zero block gets scale 1
    assert_eq!(sbs[0].scales[1], 1);
    assert_eq!(sbs[1].blocks[3].w_neg_bits[1], 1 << 6);
    assert_eq!(sbs[1].blocks[3].w_pos_bits, [0u64; 4]);
    assert!(pack_weights_to_superblocks(&[]).is_empty());
}

#[test]
fn superblocks_serialize_to_576_bytes_each() {
    let mut weights = vec![0i32; 2048];
    weights[0] = 25600;
    weights[257] = -25600;
    let sbs = pack_weights_to_superblocks(&weights);
    let bytes = superblocks_to_bytes(&sbs);
    assert_eq!(bytes.len(), 576);
    // scale of block 0 (100) little endian, then of block 1
    assert_eq!(&bytes[0..4], &[100, 0, 100, 0]);
    // offsets and padding are zero
    assert!(bytes[16..64].iter().all(|b| *b == 0));
    // block 0 pos plane, word 0 = 1
    assert_eq!(bytes[64], 1);
    // block 1 neg plane (64 + 64 + 32), word 0, bit 1
    assert_eq!(bytes[64 + 64 + 32], 2);
}

#[test]
fn append_superblocks_exact_bytes() {
    let mut w = vec![9u8, 9u8];
    append_superblocks(&mut w, 1, 10, 5, 20);
    assert_eq!(w.len(), 578);
    assert_eq!(&w[0..20], &[9, 9, 7, 0, 10, 0, 11, 0, 14, 0, 16, 0, 10, 0, 12, 0, 10, 0, 0, 0]);
    assert_eq!(&w[66..74], &[155, 21, 181, 124, 146, 125, 230, 77]);
}

#[test]
fn append_superblocks_rounds_rows_up() {
    let mut w: Vec<u8> = Vec::new();
    append_superblocks(&mut w, 3, 257, 1, 2);
    assert_eq!(w.len(), 2 * 3 * 576);
    let mut w2: Vec<u8> = vec![1, 2, 3];
    append_superblocks(&mut w2, 0, 4096, 1, 2);
    assert_eq!(w2, vec![1, 2, 3]);
}

#[test]
fn mutate_weights_exact_values() {
    let mut w = [0u8; 8];
    mutate_weights_with_threshold(&mut w, u32::MAX);
    assert_eq!(w, [2, 16, 128, 1, 16, 128, 16, 8]);
    let mut w = [0u8; 8];
    mutate_weights_with_threshold(&mut w, 1 << 31);
    assert_eq!(w, [2, 0, 8, 0, 1, 16, 128, 0]);
    let mut w = [7u8; 8];
    mutate_weights_with_threshold(&mut w, 0);
    assert_eq!(w, [7u8; 8]);
}

#[test]
fn test_memory_reorder() {
    let input = vec![1, 2, 3];
    // two blocks; the third element wraps around the input
    let i_stream = vec![0, 1];
    let out = memory_reorder(&input, &i_stream, 2);
    assert_eq!(out, vec![1, 2, 3, 1]);
}

#[test]
fn mutation_flips_single_bits() {
    let original: Vec<u8> = (0..200u32).map(|i| (i * 37 % 256) as u8).collect();
    let mut w = original.clone();
    mutate_weights_with_threshold(&mut w, u32::MAX / 3);
    let mut changed = 0;
    for (a, b) in original.iter().zip(w.iter()) {
        assert!((a ^ b).count_ones() <= 1);
        if a != b {
            changed += 1;
        }
    }
    assert!(changed > 0);
}
