//! The state of the sampler.
use crate::binary64::Binary64;
use crate::matrix::Matrix;
use crate::running_sd::RunningSd;
use crate::tree::TreeArrays;
use crate::tree_model::TreeModel;
use vstd::prelude::*;

verus! {

/// Complete state of the sampler, consumed and reproduced by each step.
#[derive(Clone)]
pub struct BartState {
    pub forest: Vec<TreeArrays>,
    /// Sum of what all trees predict, one row per output and one column per sample.
    pub predictions: Matrix,
    /// How often each feature was split on in the last step.
    pub variable_inclusion: Vec<u32>,
    /// Round-robin index of the next tree to update.
    pub next_tree_idx: usize,
    /// Whether the sampler is tuning: selects which part of the forest a step renews, and
    /// whether the running standard deviations are updated.
    pub tune: bool,
    /// Used to compute the standard deviations of the leaves.
    pub running_sd: RunningSd,
    /// Standard deviation of the leaves for each output.
    pub leaf_sd: Vec<Binary64>,
    /// Number of trees updated. Tells when to start updating the standard deviations of the
    /// leaves.
    pub iter: usize,
    /// Count of times a single leaf was selected as final tree.
    pub stump_count: usize,
}

/// What a state holds.
#[verifier::ext_equal]
pub struct StateModel {
    pub forest: Seq<TreeModel>,
    pub predictions: Matrix,
    pub variable_inclusion: Seq<u32>,
    pub next_tree_idx: usize,
    pub tune: bool,
    pub running_sd: RunningSd,
    pub leaf_sd: Vec<Binary64>,
    pub iter: usize,
    pub stump_count: usize,
}

/// What each of some trees holds.
pub open spec fn tree_models(trees: Seq<TreeArrays>) -> Seq<TreeModel> {
    trees.map_values(|t: TreeArrays| t@)
}

impl View for BartState {
    type V = StateModel;

    open spec fn view(&self) -> StateModel {
        StateModel {
            forest: tree_models(self.forest@),
            predictions: self.predictions,
            variable_inclusion: self.variable_inclusion@,
            next_tree_idx: self.next_tree_idx,
            tune: self.tune,
            running_sd: self.running_sd,
            leaf_sd: self.leaf_sd,
            iter: self.iter,
            stump_count: self.stump_count,
        }
    }
}

impl BartState {
    /// How often each feature was split on in the last step.
    pub fn get_variable_inclusion(&self) -> (r: Vec<u32>)
        ensures
            r@ == self.variable_inclusion@,
    {
        let r: Vec<u32> = self.variable_inclusion.clone();
        assert(r@ =~= self.variable_inclusion@);
        r
    }
}

/// Diagnostic information from a single sampling step.
pub struct BartInfo {
    /// Sum of the log-likelihoods of the trees updated.
    pub log_likelihood: Binary64,
    /// How many nodes were split.
    pub acceptance_count: usize,
    /// Depth of each tree updated.
    pub tree_depths: Vec<u8>,
    /// Index of the start of trees updated this step.
    pub batch_start: usize,
    /// Number of trees updated per step.
    pub batch_size: usize,
}

} // verus!
