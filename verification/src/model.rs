//! Transformer configuration for the reproduction harness.

use vstd::prelude::*;

verus! {

/// Transformer configuration.
#[derive(Clone, Debug)]
pub struct Config {
    pub vocab: usize,
    pub d: usize,
    pub heads: usize,
    pub layers: usize,
    pub block: usize,
    pub ffn: usize,
}

impl Config {
    /// Small reproduction-scale defaults: `d = 64`, 4 heads, 2 layers,
    /// `ffn = 128`.
    pub fn small(vocab: usize, block: usize) -> (r: Config)
        ensures
            r.vocab == vocab,
            r.d == 64,
            r.heads == 4,
            r.layers == 2,
            r.block == block,
            r.ffn == 128,
    {
        Config { vocab, d: 64, heads: 4, layers: 2, block, ffn: 128 }
    }
}

} // verus!
