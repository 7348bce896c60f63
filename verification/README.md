# vec101

An integer inference engine for 1.58-bit (ternary) and Q4_0 weights, written
in Verus: every kernel and data structure states its behaviour in
`requires` / `ensures` and is proved to meet it, without overflow or panics.

## Layout

- `src/` — the verified library
  - `types.rs` — weight block layouts (`vec101_block`, `Vec101SuperBlock`, `BlockQ4_0`)
  - `compute.rs` — the compute context, the GEMV / GEMM row kernels over byte
    streams, the CPU backend and `vec101_compute`
  - `engine.rs` — context builder, owning and borrowing engines, layer
    sequences, batch generation
  - `feeder.rs` — int8 quantization, activation reordering, superblock packing,
    serialization, appending and mutation of weight streams
  - `conv.rs` — `im2col` and convolution through the GEMM kernels
  - `ops.rs`, `math_int.rs` — fixed-point activations, norms, RoPE, attention
  - `attention_int.rs` — integer tiled attention with an online softmax
  - `tokenizer.rs` — trie tokenizer (longest match, UTF-8 decoding)
  - `compress.rs` — ZigZag / LEB128 delta coding of time series
  - `kv_cache.rs`, `topk.rs`, `cosine.rs` — shared-prefix KV blocks, top-K
    reduction, int8 cosine similarity
  - `react.rs` — decisions of the shell-script retry loop
  - `laws.rs` — properties that span several functions
- `tests/` — tests run against the compiled library
- `app/` — floating-point kernels, float-facing engine extensions, resource
  tracking, the C entry point and the shell-script loop
