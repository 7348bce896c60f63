use vstd::prelude::*;

pub mod arith;
pub mod attention_int;
pub mod compress;
pub mod compute;
pub mod conv;
pub mod cosine;
pub mod engine;
pub mod feeder;
pub mod kv_cache;
pub mod laws;
pub mod math_int;
pub mod ops;
pub mod react;
pub mod types;
pub mod tokenizer;
pub mod traits;
pub mod topk;
