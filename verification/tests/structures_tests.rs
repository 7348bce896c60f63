use vec101::types::{vec101_block, QuantType, Vec101SuperBlock};
use vec101::attention_int::IntegerTiledAttention;
use vec101::cosine::cosine_similarity_i8;
use vec101::kv_cache::SharedPrefixManager;
use vec101::topk::TopK;

#[test]
fn topk_keeps_best_in_order() {
    let mut t: TopK<3> = TopK::new();
    assert_eq!(t.items, [None, None, None]);
    t = t.insert((0, 5));
    t = t.insert((1, 9));
    t = t.insert((2, 7));
    assert_eq!(t.items, [Some((1, 9)), Some((2, 7)), Some((0, 5))]);
    // a better item pushes the worst out
    t = t.insert((3, 8));
    assert_eq!(t.items, [Some((1, 9)), Some((3, 8)), Some((2, 7))]);
    // a worse item is dropped
    t = t.insert((4, 1));
    assert_eq!(t.items, [Some((1, 9)), Some((3, 8)), Some((2, 7))]);
    // an equal score goes after the items already there
    t = t.insert((5, 8));
    assert_eq!(t.items, [Some((1, 9)), Some((3, 8)), Some((5, 8))]);
}

#[test]
fn topk_merge_combines_both() {
    let a: TopK<2> = TopK::new().insert((0, 1)).insert((1, 10));
    let b: TopK<2> = TopK::new().insert((2, 5)).insert((3, 20));
    let m = a.merge(b);
    assert_eq!(m.items, [Some((3, 20)), Some((1, 10))]);
    let empty: TopK<2> = TopK::default();
    assert_eq!(empty.merge(b).items, b.items);
    assert_eq!(b.merge(TopK::new()).items, b.items);
}

#[test]
fn topk_zero_capacity() {
    let t: TopK<0> = TopK::new();
    assert_eq!(t.insert((1, 1)).items.len(), 0);
}

#[test]
fn kv_cache_store_read_remove() {
    let mut m = SharedPrefixManager::new();
    assert_eq!(m.get_block_ptr(0), None);
    let a = m.insert_block(vec![1, 2, 3]);
    let b = m.insert_block(vec![4]);
    assert_eq!((a, b), (0, 1));
    assert_eq!(m.get_block_ptr(0), Some(&[1, 2, 3][..]));
    assert_eq!(m.get_block_ptr(1), Some(&[4][..]));
    m.remove_block(0);
    assert_eq!(m.get_block_ptr(0), None);
    // the freed slot is reused first
    let c = m.insert_block(vec![7, 7]);
    assert_eq!(c, 0);
    assert_eq!(m.get_block_ptr(0), Some(&[7, 7][..]));
    // removing a missing block does nothing
    m.remove_block(42);
    assert_eq!(m.get_block_ptr(1), Some(&[4][..]));
}

#[test]
fn kv_cache_insert_at_grows_with_empty_slots() {
    let mut m = SharedPrefixManager::default();
    m.insert_block_at(3, vec![9]);
    assert_eq!(m.get_block_ptr(3), Some(&[9][..]));
    assert_eq!(m.get_block_ptr(0), None);
    assert_eq!(m.get_block_ptr(2), None);
    assert_eq!(m.get_block_ptr(4), None);
    // the first empty slot is 0
    assert_eq!(m.insert_block(vec![1]), 0);
    // overwrite in place
    m.insert_block_at(3, vec![5, 5]);
    assert_eq!(m.get_block_ptr(3), Some(&[5, 5][..]));
}

#[test]
fn cosine_exact_values() {
    assert_eq!(cosine_similarity_i8(&[1, 2], &[2, 4]), 1);
    assert_eq!(cosine_similarity_i8(&[1, 0], &[-1, 0]), -1);
    // 24^2 / (25 * 25) rounds toward zero
    assert_eq!(cosine_similarity_i8(&[3, 4], &[4, 3]), 0);
    assert_eq!(cosine_similarity_i8(&[0, 0], &[1, 1]), 0);
    assert_eq!(cosine_similarity_i8(&[], &[]), 0);
    // only the common length counts
    assert_eq!(cosine_similarity_i8(&[2, 2, 100], &[3, 3]), 1);
}

#[test]
fn cosine_is_symmetric() {
    let a: [i8; 4] = [5, -3, 7, 1];
    let b: [i8; 4] = [-2, 4, 9, 9];
    assert_eq!(cosine_similarity_i8(&a, &b), cosine_similarity_i8(&b, &a));
}

#[test]
fn attention_i8_exact_values() {
    let r = IntegerTiledAttention::compute_attention_i8(&[1, 2, 3, 4], &[1, 2, 3, 4], &[10, 20, 30, 40], 2, 2, 1);
    assert_eq!(r, vec![10, 20, 31, 42]);
    let q = [5, -3, 2, 7, 1, 1];
    let k = [4, 4, -2, 3, 0, 1];
    let v = [50, -20, 30, 10, -60, 90];
    assert_eq!(IntegerTiledAttention::compute_attention_i8(&q, &k, &v, 3, 2, 2), vec![50, -20, 54, -19, 37, 18]);
    assert_eq!(IntegerTiledAttention::compute_attention_i8(&q, &k, &v, 3, 2, 3), vec![50, -20, 54, -19, 38, 18]);
}

#[test]
fn attention_i8_first_row_is_its_value() {
    let r = IntegerTiledAttention::compute_attention_i8(&[9, -9], &[3, 3], &[-7, 100], 1, 2, 4);
    assert_eq!(r, vec![-7, 100]);
    assert!(IntegerTiledAttention::compute_attention_i8(&[], &[], &[], 0, 4, 4).is_empty());
}

#[test]
fn test_core_structs_debug() {
    let block1 = vec101_block { w_pos_bits: [0; 4], w_neg_bits: [0; 4] };
    let _ = format!("{:?}", block1);
    let sb = Vec101SuperBlock { scales: [0; 8], offsets: [0; 8], _padding: [0; 32], blocks: [block1; 8] };
    let _ = format!("{:?}", sb);
    let _ = format!("{:?}", QuantType::Bit1_58);
}

#[test]
fn attention_i8_row_ignores_later_rows() {
    // row 0 scores 10 * 10 >> 3 = 12 (in Q16.16) against its own key
    for x in [0i8, 100, -100] {
        let r = IntegerTiledAttention::compute_attention_i8(&[10, 3], &[10, 4], &[50, x], 2, 1, 2);
        assert_eq!(r[0], 50);
    }
    for k1 in [0i8, 100, -100] {
        let r = IntegerTiledAttention::compute_attention_i8(&[10, 3], &[10, k1], &[50, 7], 2, 1, 2);
        assert_eq!(r[0], 50);
    }
}

#[test]
fn attention_i8_masks_by_position_only() {
    // a self-score of -13.0 is far below zero, yet the later key stays masked
    for x in [0i8, 100, -100] {
        let r = IntegerTiledAttention::compute_attention_i8(&[-10, 0], &[10, 0], &[50, x], 2, 1, 2);
        assert_eq!(r[0], 50);
    }
    let r = IntegerTiledAttention::compute_attention_i8(&[-10, 0], &[10, 0], &[50, 100], 2, 1, 2);
    assert_eq!(r, vec![50, 63]);
}

#[test]
fn attention_i8_single_key_returns_its_value() {
    // a score of -2032.0, below the mask value, still attends to the only key
    assert_eq!(IntegerTiledAttention::compute_attention_i8(&[-128], &[127], &[5], 1, 1, 1), vec![5]);
    assert_eq!(
        IntegerTiledAttention::compute_attention_i8(&[-128, 127, -128], &[127, 127, -128], &[5, -6, 7], 1, 3, 2),
        vec![5, -6, 7]
    );
}

#[test]
fn topk_insert_places_after_ties_and_keeps_empty_tail() {
    let t: TopK<4> = TopK::new().insert((0, 9)).insert((1, 5));
    // two items; a new 5 goes after the existing 5, the tail stays empty
    let t2 = t.insert((2, 5));
    assert_eq!(t2.items, [Some((0, 9)), Some((1, 5)), Some((2, 5)), None]);
}
