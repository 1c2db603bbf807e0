//! Dimensions of the model.

use vstd::prelude::*;

verus! {

/// Routed experts per layer.
pub const N_EXPERT: u32 = 384;

/// Transformer layers.
pub const N_LAYER: i32 = 40;

/// Experts that the router picks per token.
pub const N_EXPERT_USED: usize = 6;

/// Width of the residual stream.
pub const N_EMBD: u32 = 5120;

/// Inner width of one routed expert.
pub const N_FF_EXP: u32 = 2304;

/// First layer that the replay half of a prefill runs.
pub const CED_DECODER_START: u32 = 20;

/// Group ids that survive the 16-bit packing of a work item.
pub const MAX_MOE_GROUP_IDS: usize = 65536;

/// Residual copies.
pub const N_HC: u32 = 4;

/// Values of all residual copies.
pub const HC_DIM: u32 = 20480;

/// Values of a mix of the residual copies.
pub const HC_MIX_DIM: u32 = 24;

/// Attention heads.
pub const N_HEAD: u32 = 64;

/// Values of one attention head.
pub const N_HEAD_DIM: u32 = 512;

/// Values of all attention heads.
pub const Q_FLAT: u32 = 32768;

/// Width of the query's low-rank part.
pub const N_LORA_Q: u32 = 1280;

/// Inner width of the shared expert.
pub const N_FF_SHARED: u32 = 2304;

/// Values of one head of the indexer.
pub const N_INDEXER_HEAD_DIM: u32 = 128;

/// Rows that an indexer keeps at most.
pub const INDEXER_TOP_K: u32 = 512;

/// Keys that the scoring kernels take at most.
pub const ATTN_MIXED_MAX_KEYS: u32 = 82176;

/// Raw rows that attention sees at most.
pub const SWA_WINDOW: u32 = 128;

/// Bytes of one quantized block.
pub const BLOCK_Q8_K_BYTES: u32 = 292;

/// Quantized blocks of an expert's input.
pub const BLOCKS_Q8K_GATE_IN: u32 = 20;

/// Quantized blocks of an expert's inner values.
pub const BLOCKS_Q8K_DOWN_IN: u32 = 9;

} // verus!
