use vec101::compute::vec101_context;
use vec101::engine::{ComputeContextBuilder, LayerSequenceEvaluator, Vec101EngineBorrow};
use vec101::feeder::{pack_weights_to_superblocks, superblocks_to_bytes};
use vec101::types::QuantType;

/// One row, one superblock: block 0 is all +1 with scale `scale`.
fn row_with_scale(scale: i32) -> Vec<u8> {
    let mut weights = vec![0i32; 2048];
    for w in weights.iter_mut().take(256) {
        *w = scale;
    }
    superblocks_to_bytes(&pack_weights_to_superblocks(&weights))
}

#[test]
fn builder_engine_computes() {
    let w = row_with_scale(100);
    let x = vec![1i8; 2048];
    let s = [65536];
    let mut engine = ComputeContextBuilder::new()
        .quant_type(QuantType::Bit1_58)
        .w_stream(&w)
        .x_stream(&x)
        .s_stream(&s)
        .batch_size(1)
        .num_rows(1)
        .blocks_per_row(1)
        .num_threads(2)
        .build();
    assert_eq!(engine.get_output(), &[0]);
    engine.compute();
    assert_eq!(engine.get_output(), &[100]);
    engine.compute();
    assert_eq!(engine.get_output(), &[200]);
}

#[test]
fn engine_with_no_rows_keeps_one_zero() {
    let mut engine = ComputeContextBuilder::default().num_rows(0).build();
    engine.compute();
    assert_eq!(engine.get_output(), &[0]);
}

#[test]
fn engine_setters_change_the_next_run() {
    let w1 = row_with_scale(100);
    let w2 = row_with_scale(50);
    let x = vec![2i8; 2048];
    let s = [65536];
    let block = [1, 2, 3];
    let mut engine = ComputeContextBuilder::new()
        .w_stream(&w1)
        .x_stream(&x)
        .s_stream(&s)
        .num_rows(1)
        .blocks_per_row(1)
        .build();
    engine.set_w_stream(&w2);
    engine.compute();
    // 256 * 2 * 50 >> 8 = 100
    assert_eq!(engine.get_output(), &[100]);
    // no KV slots: ignored
    engine.set_kv_block(0, Some(&block));
    assert_eq!(engine.get_output(), &[100]);
}

#[test]
fn borrowed_engine_checks_the_buffer() {
    let w = row_with_scale(100);
    let x = vec![1i8; 4096];
    let s = [65536];
    let mut small = [0i32; 1];
    assert!(Vec101EngineBorrow::new(&w, &x, &s, &mut small, 2, 1, 1).is_err());
    let mut out = [5i32; 2];
    {
        let mut engine = Vec101EngineBorrow::new(&w, &x, &s, &mut out, 2, 1, 1).unwrap();
        engine.set_num_threads(3);
        engine.compute();
    }
    assert_eq!(out, [105, 105]);
    let mut one = [0i32; 1];
    assert!(Vec101EngineBorrow::new(&w, &x, &s, &mut one, 0, 0, 1).is_ok());
}

#[test]
fn layer_evaluator_runs_every_layer() {
    let l1 = row_with_scale(100);
    let l2 = row_with_scale(20);
    let x = vec![1i8; 2048];
    let s = [65536];
    let ctx = vec101_context {
        quant_type: QuantType::Bit1_58,
        w_stream: &l1,
        x_stream: &x,
        s_stream: &s,
        kv_blocks: &[],
        num_blocks: 0,
        block_size: 16,
        batch_size: 1,
        num_rows: 1,
        blocks_per_row: 1,
        num_threads: 1,
        tree_mask: &[],
        tree_size: 0,
        hardware_handle: 0,
    };
    let layers: [&[u8]; 2] = [&l1, &l2];
    let mut out = [0i32; 1];
    {
        let mut ev = LayerSequenceEvaluator::new(ctx, &layers, &mut out);
        ev.evaluate_all();
    }
    assert_eq!(out, [120]);
}

#[test]
fn batch_generate_without_weights_uses_placeholder_logits() {
    let mut engine = ComputeContextBuilder::new().build();
    let prompts = vec![vec![1u32, 2, 3], vec![4u32]];
    let results = engine.batch_generate(prompts);
    assert_eq!(
        results,
        vec![
            vec![0, 127, 127, 85, 63, 51, 85, 73, 31, 85, 51, 93, 21, 59, 73, 17],
            vec![0, 127, 127, 84, 63, 102, 85, 36, 31, 85, 51, 23, 21, 118, 73, 34],
        ]
    );
    // the engine's own buffer is untouched
    assert_eq!(engine.get_output(), &[0]);
    let mut small = ComputeContextBuilder::new().num_rows(3).build();
    assert_eq!(small.batch_generate(vec![vec![]]), vec![vec![0, 2, 2, 2, 2, 2, 2, 2, 2, 2, 2, 2, 2, 2, 2, 2]]);
    assert!(small.batch_generate(Vec::new()).is_empty());
}

#[test]
fn batch_generate_with_weights_accumulates() {
    let mut weights = vec![0i32; 4096];
    for w in weights.iter_mut().take(256) {
        *w = 100;
    }
    for w in weights[2048..2048 + 256].iter_mut() {
        *w = -100;
    }
    let w = superblocks_to_bytes(&pack_weights_to_superblocks(&weights));
    let mut engine = ComputeContextBuilder::new()
        .w_stream(&w)
        .num_rows(2)
        .blocks_per_row(1)
        .block_size(2048)
        .build();
    let results = engine.batch_generate(vec![vec![7], vec![8]]);
    assert_eq!(
        results,
        vec![vec![1, 1, 0, 1, 1, 0, 1, 1, 0, 1, 1, 0, 1, 1, 0, 1], vec![0; 16]]
    );
    assert_eq!(engine.get_output(), &[0, 0]);
}

#[test]
fn target_logits_reads_the_output() {
    let w = row_with_scale(100);
    let x = vec![1i8; 2048];
    let s = [65536];
    let mut engine = ComputeContextBuilder::new()
        .w_stream(&w)
        .x_stream(&x)
        .s_stream(&s)
        .num_rows(1)
        .blocks_per_row(1)
        .build();
    engine.compute();
    assert_eq!(engine.target_logits(&[0, 1, 0, 99]), vec![100, 0, 100, 0]);
    assert!(engine.target_logits(&[]).is_empty());
}

#[test]
fn builder_binds_caller_buffers() {
    let w = row_with_scale(100);
    let x = vec![1i8; 2048];
    let s = [65536];
    let mut out = vec![0i32; 1];
    {
        let mut engine = ComputeContextBuilder::new()
            .batch_size(1)
            .num_rows(1)
            .blocks_per_row(1)
            .s_stream(&s)
            .quant_type(QuantType::Bit1_58)
            .build_borrowed(&w, &x, &mut out)
            .expect("Failed to initialize vec101 context");
        engine.compute();
    }
    assert_eq!(out, vec![100]);
    let mut empty: Vec<i32> = Vec::new();
    assert!(ComputeContextBuilder::new().num_rows(2).build_borrowed(&w, &x, &mut empty).is_err());
}
