use vstd::prelude::*;

verus! {

/// Provides read-only access to model weights.
/// Implemented by the application layer to feed safetensors or mmapped files into the core.
pub trait WeightProvider {
    type WeightType;

    /// Retrieves a specific weight slice for a given layer and module name.
    /// Returns `None` if the weight is not found.
    fn get_weights(&self, layer_id: usize, module_name: &str) -> Option<&[Self::WeightType]>;
}

/// Represents a single layer (e.g., a Transformer Block) in a neural network.
pub trait LlmLayer<W: WeightProvider> {
    type Error;

    /// Executes the forward pass for this layer.
    ///
    /// All buffers must be pre-allocated by the caller to ensure `no_std` compatibility.
    ///
    /// - `layer_id`: The index of this layer.
    /// - `weights`: The weight provider to fetch projection weights.
    /// - `hidden_states`: The in/out feature vector for the sequence.
    /// - `kv_cache_k`: The key cache buffer for this layer.
    /// - `kv_cache_v`: The value cache buffer for this layer.
    /// - `scratch_buffer`: A temporary working buffer to avoid allocations.
    fn forward(
        &self,
        layer_id: usize,
        weights: &W,
        hidden_states: &mut [i8],
        kv_cache_k: &mut [i8],
        kv_cache_v: &mut [i8],
        scratch_buffer: &mut [i8],
    ) -> Result<(), Self::Error>;
}

/// Represents a node in the distributed Daisy Chain pipeline.
pub trait PipelineNode {
    /// Process a stage (part of the model layers) and output the transformed hidden state.
    fn process_stage(&self, hidden_state: &[i8]) -> Vec<i8>;

    /// Tail node execution. Decodes logits and broadcasts the final TokenID.
    fn decode_and_broadcast(&self, final_state: &[i8]) -> u32;
}

} // verus!
