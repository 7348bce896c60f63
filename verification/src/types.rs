use vstd::prelude::*;

verus! {

/// The fundamental compute block for vec101: 256 ternary weights stored as two
/// bit planes, bit `k % 64` of word `k / 64` of `w_pos_bits` (resp. `w_neg_bits`)
/// being set when weight `k` is +1 (resp. -1).
#[allow(non_camel_case_types)]
#[derive(Debug, Clone, Copy)]
pub struct vec101_block {
    pub w_pos_bits: [u64; 4],
    pub w_neg_bits: [u64; 4],
}

/// Eight blocks (2048 weights) with their per-block scales, laid out in 576 bytes:
/// 64 bytes of metadata followed by the eight 64-byte blocks.
#[derive(Debug, Clone, Copy)]
pub struct Vec101SuperBlock {
    pub scales: [i16; 8],
    pub offsets: [i16; 8],
    pub _padding: [u8; 32],
    pub blocks: [vec101_block; 8],
}

/// Gemma Q4_0 block: 32 weights packed as 4-bit values (offset by 8) in 16 bytes,
/// preceded by the block scale; 18 bytes in all.
#[derive(Debug, Clone, Copy)]
pub struct BlockQ4_0 {
    pub d: i16,
    pub qs: [u8; 16],
}

/// Supported quantization types for Dual Engine
#[derive(Debug, Clone, Copy, PartialEq, Eq, Structural)]
pub enum QuantType {
    Bit1_58,
    Q4_0,
}

/// Size in bytes of a [`Vec101SuperBlock`] in a weight stream.
pub const SUPERBLOCK_BYTES: usize = 576;

/// Size in bytes of a [`BlockQ4_0`] in a weight stream.
pub const Q4_BLOCK_BYTES: usize = 18;

/// Number of activations covered by one superblock (and by eight Q4_0 blocks).
pub const SUPERBLOCK_WEIGHTS: usize = 2048;

} // verus!
