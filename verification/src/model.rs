//! The size of the model.
use vstd::prelude::*;

verus! {

/// The size of a transformer.
#[derive(Debug, Clone, Copy, PartialEq, Eq, Structural)]
pub struct LMTransformerConfig {
    pub d_model: usize,
    pub n_heads: usize,
    pub n_layers: usize,
    pub vocab_size: usize,
    pub max_len: usize,
}

impl LMTransformerConfig {
    /// The size that training and generation use, for a vocabulary and a row length.
    pub fn standard(vocab_size: usize, max_len: usize) -> (c: LMTransformerConfig)
        ensures
            c.d_model == 256,
            c.n_heads == 8,
            c.n_layers == 6,
            c.vocab_size == vocab_size,
            c.max_len == max_len,
    {
        LMTransformerConfig { d_model: 256, n_heads: 8, n_layers: 6, vocab_size, max_len }
    }

    /// The width of the feed-forward layers: four times that of the model.
    pub fn d_ff(&self) -> (n: usize)
        requires
            4 * self.d_model <= usize::MAX,
        ensures
            n == 4 * self.d_model,
    {
        4 * self.d_model
    }
}

} // verus!
