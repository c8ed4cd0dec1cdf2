//! Settings of the sampler.
use crate::binary64::Binary64;
use vstd::prelude::*;

verus! {

/// Settings of the sampler.
pub struct BartConfig {
    /// Number of trees in the forest.
    pub n_trees: usize,
    /// Number of particles that compete for each tree.
    pub n_particles: usize,
    /// Maximum depth of a tree.
    pub max_depth: u8,
    /// A node at depth `d` is split with probability `alpha * (1 + d)^(-beta)`.
    pub alpha: Binary64,
    /// See `alpha`.
    pub beta: Binary64,
    /// Standard deviation of the noise.
    pub sigma: Binary64,
    /// Number of outputs.
    pub n_outputs: usize,
    /// Least number of samples wanted in a leaf.
    pub min_samples_leaf: usize,
    /// Cumulative probabilities of the features as split variables. All features are as
    /// likely without them.
    pub splitting_probs: Option<Vec<Binary64>>,
    /// Part of the forest that a step renews while tuning.
    pub batch_tune: Binary64,
    /// Part of the forest that a step renews after tuning.
    pub batch_post: Binary64,
    /// Name of the response strategy.
    pub response: String,
}

} // verus!
